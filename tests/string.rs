use ecow::EcoString;

#[test]
fn new_is_empty() {
    let s = EcoString::new();
    assert_eq!(s.len(), 0);
    assert!(s.is_empty());
    assert_eq!(s.as_str(), "");
    assert!(s.is_inline());
}

#[test]
fn push_str_crosses_limit() {
    let mut s = EcoString::new();
    s.push_str("Welcome");
    assert!(s.is_inline());
    assert_eq!(s.as_str(), "Welcome");
    s.push_str(" to earth! ");
    assert!(!s.is_inline());
    assert_eq!(s.as_str(), "Welcome to earth! ");
    s.push('🌱');
    assert_eq!(s.as_str(), "Welcome to earth! 🌱");
    assert_eq!(s.len(), 22);
}

#[test]
fn clone_then_pop_is_isolated() {
    let mut big = EcoString::new();
    big.push_str("Welcome");
    big.push_str(" to earth! ");
    big.push('🌱');
    let mut copy = big.clone();
    assert_eq!(copy.len(), big.len());
    assert_eq!(copy.as_str(), big.as_str());
    assert_eq!(copy.pop(), Some('🌱'));
    assert_eq!(copy.as_str(), "Welcome to earth! ");
    assert_eq!(big.as_str(), "Welcome to earth! 🌱");
}

#[test]
fn clone_then_push_and_clear_are_isolated() {
    let a = EcoString::from_str("a string long enough for the heap");
    let mut b = a.clone();
    b.push('!');
    assert_eq!(a.as_str(), "a string long enough for the heap");
    assert_eq!(b.as_str(), "a string long enough for the heap!");
    let mut c = a.clone();
    c.clear();
    assert_eq!(c.as_str(), "");
    assert!(!c.is_inline());
    assert_eq!(a.as_str(), "a string long enough for the heap");
    let mut d = a.clone();
    let mut e = d.clone();
    e.push_str("?");
    d.pop();
    assert_eq!(d.as_str(), "a string long enough for the hea");
    assert_eq!(e.as_str(), "a string long enough for the heap?");
    assert_eq!(a.as_str(), "a string long enough for the heap");
}

#[test]
fn with_capacity_chooses_representation() {
    let mut s = EcoString::with_capacity(20);
    assert!(!s.is_inline());
    s.push_str("abcdefghijklmnopqrst");
    assert!(!s.is_inline());
    assert_eq!(s.as_str(), "abcdefghijklmnopqrst");
    let mut t = EcoString::new();
    t.push_str("abcdefghij");
    assert!(t.is_inline());
    assert_eq!(t.as_str(), "abcdefghij");
    assert!(EcoString::with_capacity(14).is_inline());
    assert!(!EcoString::with_capacity(15).is_inline());
}

#[test]
fn from_str_round_trips() {
    for text in ["", "a", "exactly 14 byte", "fourteen bytes", "fifteen bytes!!", "größer als vierzehn", "🌱🌱🌱🌱"] {
        let s = EcoString::from_str(text);
        assert_eq!(s.as_str(), text);
        assert_eq!(s.len(), text.len());
        assert_eq!(s.is_inline(), text.len() <= 14);
    }
}

#[test]
fn limit_boundary() {
    let mut s = EcoString::from_str("abcdefghijklm");
    assert!(s.is_inline());
    s.push('n');
    assert!(s.is_inline());
    assert_eq!(s.len(), 14);
    s.push('o');
    assert!(!s.is_inline());
    assert_eq!(s.as_str(), "abcdefghijklmno");
}

#[test]
fn push_multibyte_promotes() {
    let mut s = EcoString::from_str("abcdefghijkl");
    s.push('é');
    assert!(s.is_inline());
    assert_eq!(s.len(), 14);
    s.push('€');
    assert!(!s.is_inline());
    assert_eq!(s.as_str(), "abcdefghijklé€");
}

#[test]
fn heap_stays_heap() {
    let mut s = EcoString::from_str("this is stored on the heap");
    while s.pop().is_some() {}
    assert!(s.is_empty());
    assert!(!s.is_inline());
    s.push('x');
    assert!(!s.is_inline());
    assert_eq!(s.as_str(), "x");
}

#[test]
fn pop_empty_is_none() {
    let mut s = EcoString::new();
    assert_eq!(s.pop(), None);
    assert_eq!(s.as_str(), "");
    let mut h = EcoString::with_capacity(30);
    assert_eq!(h.pop(), None);
}

#[test]
fn pop_then_push_restores() {
    for text in ["a", "ab🌱", "héllo", "a long string that lives on the heap ✓"] {
        let mut s = EcoString::from_str(text);
        let c = s.pop().unwrap();
        assert_eq!(s.len() + c.len_utf8(), text.len());
        s.push(c);
        assert_eq!(s.as_str(), text);
    }
}

#[test]
fn pop_removes_whole_character() {
    let mut s = EcoString::from_str("a🌱");
    assert_eq!(s.pop(), Some('🌱'));
    assert_eq!(s.as_str(), "a");
    assert_eq!(s.len(), 1);
}

#[test]
fn clear_keeps_representation() {
    let mut s = EcoString::from_str("short");
    s.clear();
    assert!(s.is_inline());
    assert_eq!(s.as_str(), "");
    let mut h = EcoString::from_str("a string on the heap");
    h.clear();
    assert!(!h.is_inline());
    assert!(h.is_empty());
}

#[test]
fn lowercase_ascii() {
    let s = EcoString::from_str("HELLO");
    let l = s.to_lowercase();
    assert_eq!(l.as_str(), "hello");
    assert!(l.is_inline());
    assert_eq!(EcoString::from_str("MiXeD 123 CASE on the HEAP").to_lowercase().as_str(), "mixed 123 case on the heap");
}

#[test]
fn uppercase_expands() {
    let s = EcoString::from_str("straße");
    assert_eq!(s.to_uppercase().as_str(), "STRASSE");
    assert_eq!(EcoString::from_str("Hello").to_uppercase().as_str(), "HELLO");
}

#[test]
fn lowercase_unicode() {
    assert_eq!(EcoString::from_str("ÀÉÎ").to_lowercase().as_str(), "àéî");
    assert_eq!(EcoString::from_str("ΟΔΟΣ").to_lowercase().as_str(), "οδος");
    assert_eq!(EcoString::from_str("ΣΑΣ ΣΟΣ").to_lowercase().as_str(), "σας σος");
}

#[test]
fn case_mapping_is_idempotent() {
    for text in ["HELLO", "hello World", "straße", "ΟΔΟΣ", "a longer ASCII text ON THE heap"] {
        let s = EcoString::from_str(text);
        let l = s.to_lowercase();
        assert_eq!(l.to_lowercase().as_str(), l.as_str());
        let u = s.to_uppercase();
        assert_eq!(u.to_uppercase().as_str(), u.as_str());
    }
}

#[test]
fn repeat_scenarios() {
    let s = EcoString::from_str("ab");
    let r = s.repeat(3);
    assert_eq!(r.as_str(), "ababab");
    assert_eq!(r.len(), 6);
    assert!(r.is_inline());
    assert_eq!(s.repeat(0).as_str(), "");
    assert!(s.repeat(7).is_inline());
    let big = s.repeat(8);
    assert!(!big.is_inline());
    assert_eq!(big.as_str(), "abababababababab");
}

#[test]
fn repeat_lengths() {
    for text in ["", "x", "ab", "🌱", "a string kept on the heap"] {
        let s = EcoString::from_str(text);
        assert_eq!(s.repeat(0).len(), 0);
        for n in 1..6 {
            let r = s.repeat(n);
            assert_eq!(r.len(), text.len() * n);
            assert_eq!(r.as_str(), text.repeat(n));
        }
    }
    let heap_short = EcoString::with_capacity(20);
    let mut h = heap_short.clone();
    h.push_str("ab");
    assert!(!h.repeat(2).is_inline());
    assert_eq!(h.repeat(2).as_str(), "abab");
    assert!(EcoString::from_str("a string kept on the heap").repeat(0).is_inline());
}

#[test]
fn appends_are_content_transparent() {
    let mut s = EcoString::new();
    let mut expected = String::new();
    let pieces = ["a", "bc", "é", "🌱", "defghijk", "", "lmnop", "ü"];
    for (i, p) in pieces.iter().enumerate() {
        if i % 2 == 0 {
            s.push_str(p);
        } else {
            for c in p.chars() {
                s.push(c);
            }
        }
        expected.push_str(p);
        assert_eq!(s.as_str(), expected.as_str());
        assert_eq!(s.len(), expected.len());
    }
}

#[test]
fn default_is_empty_inline() {
    let s = EcoString::default();
    assert!(s.is_empty());
    assert!(s.is_inline());
}

#[test]
fn equality_ignores_representation() {
    let inline = EcoString::from_str("abc");
    let mut heap = EcoString::with_capacity(40);
    heap.push_str("abc");
    assert!(inline.is_inline());
    assert!(!heap.is_inline());
    assert!(inline == heap);
    assert!(heap == inline.clone());
    let other = EcoString::from_str("abd");
    assert!(inline != other);
    assert!(EcoString::from_str("ab") != inline);
    assert!(EcoString::new() == EcoString::with_capacity(100));
}
