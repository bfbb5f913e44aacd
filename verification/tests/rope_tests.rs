use jumprope::{JumpRope, Rope, RopeError};

fn check(r: &JumpRope, expected: &str) {
    assert!(r.check());
    assert_eq!(r.to_string(), expected);
    assert_eq!(r.len(), expected.len());
    assert_eq!(r.char_len(), expected.chars().count());
}

#[test]
fn empty_rope_has_no_contents() {
    let mut r = JumpRope::new();
    check(&r, "");

    r.insert(0, "").unwrap();
    check(&r, "");
}

#[test]
fn insert_at_location() {
    let mut r = JumpRope::new();

    r.insert(0, "AAA").unwrap();
    check(&r, "AAA");

    r.insert(0, "BBB").unwrap();
    check(&r, "BBBAAA");

    r.insert(6, "CCC").unwrap();
    check(&r, "BBBAAACCC");

    r.insert(5, "DDD").unwrap();
    check(&r, "BBBAADDDACCC");
}

#[test]
fn new_string_has_content() {
    let r = JumpRope::new_from_str("hi there");
    check(&r, "hi there");

    let mut r = JumpRope::new_from_str("κόσμε");
    check(&r, "κόσμε");
    r.insert(2, "𝕐𝕆😘").unwrap();
    check(&r, "κό𝕐𝕆😘σμε");
}

#[test]
fn del_at_location() {
    let mut r = JumpRope::new_from_str("012345678");

    r.del(8, 1).unwrap();
    check(&r, "01234567");

    r.del(0, 1).unwrap();
    check(&r, "1234567");

    r.del(5, 1).unwrap();
    check(&r, "123457");

    r.del(5, 1).unwrap();
    check(&r, "12345");

    r.del(0, 5).unwrap();
    check(&r, "");
}

#[test]
fn del_past_end_of_string() {
    let mut r = JumpRope::new();

    r.del(0, 100).unwrap();
    check(&r, "");

    r.insert(0, "hi there").unwrap();
    r.del(3, 10).unwrap();
    check(&r, "hi ");
}

#[test]
fn position_out_of_bounds_is_reported() {
    let mut r = JumpRope::new_from_str("abc");
    assert!(matches!(r.insert(4, "x"), Err(RopeError::PositionOutOfBounds)));
    check(&r, "abc");

    assert!(matches!(r.del(4, 1), Err(RopeError::PositionOutOfBounds)));
    assert!(matches!(r.del(4, 0), Err(RopeError::PositionOutOfBounds)));
    check(&r, "abc");

    assert!(matches!(r.slice(2, 2), Err(RopeError::PositionOutOfBounds)));
    assert!(matches!(r.slice(4, 0), Err(RopeError::PositionOutOfBounds)));
    check(&r, "abc");
}

#[test]
fn empty_edits_change_nothing() {
    let mut r = JumpRope::new_from_str("κό𝕐𝕆😘σμε");
    for pos in 0..=r.char_len() {
        r.insert(pos, "").unwrap();
        check(&r, "κό𝕐𝕆😘σμε");
        r.del(pos, 0).unwrap();
        check(&r, "κό𝕐𝕆😘σμε");
    }
}

#[test]
fn slice_matches_to_string_substring() {
    let r = JumpRope::new_from_str("a©Ύ←𐆐b¥Δ↯𐆔 κόσμε 𝕐𝕆😘");
    let doc: Vec<char> = r.to_string().chars().collect();
    for p in 0..=doc.len() {
        for n in 0..=(doc.len() - p) {
            let expect: String = doc[p..p + n].iter().collect();
            assert_eq!(r.slice(p, n).unwrap(), expect);
        }
    }
}

#[test]
fn long_insert_splits_nodes() {
    // far beyond one node's content budget, so the chain must split
    let big: String = std::iter::repeat('x').take(1000).collect();
    let mut r = JumpRope::new_from_str(&big);
    check(&r, &big);

    r.insert(500, "κόσμε").unwrap();
    let mut expect: String = big[..500].to_string();
    expect.push_str("κόσμε");
    expect.push_str(&big[500..]);
    check(&r, &expect);

    // delete a range spanning several nodes
    r.del(100, 700).unwrap();
    let chars: Vec<char> = expect.chars().collect();
    let after: String = chars[..100].iter().chain(chars[800..].iter()).collect();
    check(&r, &after);
}

#[test]
fn insert_then_delete_restores() {
    let original = "κό𝕐𝕆😘σμε";
    for pos in 0..=original.chars().count() {
        let mut r = JumpRope::new_from_str(original);
        r.insert(pos, "𝕐a©").unwrap();
        r.del(pos, 3).unwrap();
        check(&r, original);
    }
}

#[test]
fn slice_spans_nodes() {
    let big: String = "abcdefghij".repeat(60);
    let mut r = JumpRope::new_from_str(&big);
    r.insert(300, "κό𝕐𝕆😘").unwrap();

    let doc: Vec<char> = r.to_string().chars().collect();
    assert_eq!(doc.len(), 605);
    for &(p, n) in &[(0, 605), (0, 1), (604, 1), (290, 30), (100, 400), (299, 7), (305, 0)] {
        let expect: String = doc[p..p + n].iter().collect();
        assert_eq!(r.slice(p, n).unwrap(), expect);
    }
}

#[test]
fn random_multibyte_edits_match_model() {
    let pieces = ["a", "©¥", "Ύ", "𝕐𝕆😘", "κόσμε", "←↯⇈", "𐆐𐆔𐆘", "hello"];
    let mut model: Vec<char> = Vec::new();
    let mut r = JumpRope::new();
    let mut seed: u64 = 0x2545F4914F6CDD1D;
    let mut next = |m: usize| -> usize {
        seed = seed.wrapping_mul(6364136223846793005).wrapping_add(1442695040888963407);
        ((seed >> 33) as usize) % m
    };
    for step in 0..400 {
        if step % 3 != 2 {
            let piece = pieces[next(pieces.len())];
            let pos = next(model.len() + 1);
            r.insert(pos, piece).unwrap();
            let tail: Vec<char> = model.split_off(pos);
            model.extend(piece.chars());
            model.extend(tail);
        } else {
            let pos = next(model.len() + 1);
            let n = next(8);
            r.del(pos, n).unwrap();
            let end = if pos + n > model.len() { model.len() } else { pos + n };
            model.drain(pos..end);
        }
        let expect: String = model.iter().collect();
        check(&r, &expect);
    }
}
