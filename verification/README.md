# shield

The verified core of a proxy that hides the URLs of protected resources
behind random, signed paths.

- `src/util.rs`: CRC-8 signatures, the check that recognises a signed path,
  the generation of such paths (with the proof that every generated path is
  recognised), and conversions between `SystemTime` and epoch milliseconds.
- `src/random.rs`: random class names, ids, paths and extensions.
- `src/encryption.rs`: the xor-and-base64 obfuscation of payloads and its
  round trip for payloads of two bytes or more (shorter payloads are refused as too short).
- `src/headers.rs`, `src/cookies.rs`: questions asked of request headers, and
  the reading of the `Cookie` header.
- `src/service.rs`: the cache records and the decisions taken on them.
- `src/proxy.rs`: where the forwarding proxy sends a request.
- `app/`: the servers, the cache storages, the tower service and the other
  asynchronous plumbing, which call into the library.
