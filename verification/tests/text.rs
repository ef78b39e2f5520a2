use planetscale_driver::text::{chars_of, push_decimal, replace_all};

#[test]
fn decimal_text() {
    for n in [0usize, 1, 9, 10, 11, 99, 100, 12345, usize::MAX] {
        let mut s = String::from("$");
        push_decimal(&mut s, n);
        assert_eq!(s, format!("${}", n));
    }
}

#[test]
fn replace_all_agrees_with_std() {
    let texts = ["", "aaa", "abab", "aaaa", "xaax", "héé", "$1$10$100", "aXbXc"];
    let pats = ["a", "aa", "ab", "é", "$1", "X"];
    for t in texts.iter() {
        for p in pats.iter() {
            for r in ["", "Z", "aa", "$1"] {
                let pc: Vec<char> = p.chars().collect();
                assert_eq!(replace_all(t, &pc, r), t.replace(p, r), "{:?} {:?} {:?}", t, p, r);
            }
        }
    }
}

#[test]
fn chars_in_order() {
    assert_eq!(chars_of("héllo"), vec!['h', 'é', 'l', 'l', 'o']);
    assert_eq!(chars_of(""), Vec::<char>::new());
}
