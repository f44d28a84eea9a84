use rand::rngs::StdRng;
use rand::{Rng, SeedableRng};
use shield::random::{ext_at, name_from_indices, path_from_draws, RandExt};

fn is_path_char(c: char) -> bool {
    (c.is_ascii_alphabetic() && c != 'D' && c != 'd') || c == '_'
}

#[test]
fn class_and_id_names() {
    let mut rng = StdRng::seed_from_u64(7);
    for _ in 0..100 {
        for name in [rng.gen_class_name(), rng.gen_id_name()] {
            assert_eq!(name.len(), 11);
            let first = name.chars().next().unwrap();
            assert!(first.is_ascii_alphabetic() || first == '_');
            assert!(name.chars().all(|c| c.is_ascii_alphanumeric() || c == '_'));
        }
    }
}

#[test]
fn extensions_come_from_the_pool() {
    let pool = [
        "avif", "pdf", "ps", "class", "pict", "webp", "eps", "pls", "csv", "mid", "doc", "midi",
        "ppt", "tif", "xls", "docx", "jar", "pptx", "tiff", "xlsx",
    ];
    let mut rng = rand::thread_rng();
    for _ in 0..200 {
        let ext = rng.gen_ext().to_string();
        assert!(pool.contains(&ext.as_str()));
    }
}

#[test]
fn paths_have_their_shape() {
    let mut rng = StdRng::seed_from_u64(42);
    for _ in 0..200 {
        let path = rng.gen_path();
        let chars: Vec<char> = path.chars().collect();
        assert!(chars.len() >= 10);
        assert!(is_path_char(chars[0]));
        assert!(is_path_char(*chars.last().unwrap()));
        assert!(!path.contains("//"));
        assert!(!path.contains("./"));
        assert!(!path.contains(".."));
        let units = chars[1..chars.len() - 1].iter().filter(|c| is_path_char(**c)).count();
        assert!((8..28).contains(&units));
        assert!(chars.iter().all(|c| is_path_char(*c) || *c == '/' || *c == '.'));
    }
}

#[test]
fn gen_index_stays_in_range() {
    let mut rng = StdRng::seed_from_u64(1);
    for _ in 0..100 {
        let v = rng.gen_index(3, 5);
        assert!((3..5).contains(&v));
    }
}

#[test]
fn names_from_draws() {
    let tail = vec![0, 1, 25, 26, 51, 52, 61, 62, 10, 35];
    assert_eq!(name_from_indices(0, &tail), "AABZaz09_Kj");
    let tail = vec![62; 10];
    assert_eq!(name_from_indices(52, &tail), "___________");
}

#[test]
fn extensions_from_draws() {
    assert_eq!(ext_at(0), "avif");
    assert_eq!(ext_at(3), "class");
    assert_eq!(ext_at(19), "xlsx");
}

#[test]
fn paths_from_draws() {
    let units = vec![(0, 1, 0), (3, 3, 3), (0, 0, 50), (4, 1, 25)];
    assert_eq!(path_from_draws(2, &units, 49), "C/.AE/_.az");
}

#[test]
fn seeded_paths_follow_the_draws() {
    let mut a = StdRng::seed_from_u64(9);
    let mut b = StdRng::seed_from_u64(9);
    let path = a.gen_path();
    let first: usize = b.gen_range(0..51);
    let n: usize = b.gen_range(8..28);
    let mut units = Vec::new();
    for _ in 0..n {
        let s: i32 = b.gen_range(0..5);
        let d: i32 = b.gen_range(0..5);
        let c: usize = b.gen_range(0..51);
        units.push((s, d, c));
    }
    let last: usize = b.gen_range(0..51);
    assert_eq!(path, path_from_draws(first, &units, last));
}
