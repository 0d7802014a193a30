use tklib::scan::{is_whitespace, next_phase, Phase, Scanner};

#[test]
fn read_string() {
    let input = "AtCoder";
    let mut sc = Scanner::new(input.as_bytes());

    let s: String = sc.read();
    assert_eq!(s, "AtCoder");
}

#[test]
fn read_number() {
    let input = "1 3\n";
    let mut sc = Scanner::new(input.as_bytes());

    let (n, m): (i32, i32) = (sc.read().parse().unwrap(), sc.read().parse().unwrap());
    assert_eq!(n, 1);
    assert_eq!(m, 3);
}

#[test]
fn read_graph() {
    let input = "\
        4 3
        1 2
        1 3
        1 4
        ";
    let mut sc = Scanner::new(input.as_bytes());

    let (n, m): (u32, u32) = (sc.read().parse().unwrap(), sc.read().parse().unwrap());
    assert_eq!((n, m), (4, 3));

    let (from, to): (u32, u32) = (sc.read().parse().unwrap(), sc.read().parse().unwrap());
    assert_eq!((from, to), (1, 2));

    let (from, to): (u32, u32) = (sc.read().parse().unwrap(), sc.read().parse().unwrap());
    assert_eq!((from, to), (1, 3));

    let (from, to): (u32, u32) = (sc.read().parse().unwrap(), sc.read().parse().unwrap());
    assert_eq!((from, to), (1, 4));
}

#[test]
fn read_vec() {
    let input = "\
        5
        1 2 3 4 5
        ";
    let mut sc = Scanner::new(input.as_bytes());

    let n: usize = sc.read().parse().unwrap();
    assert_eq!(n, 5);

    let v: Vec<i32> = sc.vec(n).iter().map(|t| t.parse().unwrap()).collect();
    assert_eq!(v, vec![1, 2, 3, 4, 5]);
}

#[test]
fn read_chars() {
    let input = ".#..#";
    let mut sc = Scanner::new(input.as_bytes());

    let v = sc.chars();
    assert_eq!(v, vec!['.', '#', '.', '.', '#']);
}

#[test]
fn token_passes_over_one_separator() {
    let mut sc = Scanner::new(b"  ab\t\tcd");
    assert_eq!(b"ab", sc.token());
    // one tab is gone with the token, the other still leads what is left
    assert_eq!(b"\tcd", sc.remaining());
    assert_eq!(b"cd", sc.token());
    assert_eq!(b"", sc.remaining());
}

#[test]
fn token_at_the_end_is_empty() {
    let mut sc = Scanner::new(b"x \n ");
    assert_eq!(b"x", sc.token());
    assert_eq!(b"", sc.token());
    assert_eq!(b"", sc.remaining());
    assert_eq!(b"", sc.token());

    let mut empty = Scanner::new(b"");
    assert_eq!(b"", empty.token());
    assert_eq!("", empty.read());
    assert_eq!(Vec::<char>::new(), empty.chars());
}

#[test]
fn white_space_is_what_the_characters_say() {
    for b in 0..=255u8 {
        assert_eq!((b as char).is_whitespace(), is_whitespace(b));
    }
}

#[test]
fn every_separator_separates() {
    let input = [b'a', 9, b'b', 10, b'c', 11, b'd', 12, b'e', 13, b'f', 32, b'g', 0x85, b'h', 0xa0, b'i'];
    let mut sc = Scanner::new(&input);
    let tokens = sc.vec(9);
    assert_eq!(tokens, vec!["a", "b", "c", "d", "e", "f", "g", "h", "i"]);
    assert_eq!(b"", sc.remaining());
}

#[test]
fn characters_of_more_than_one_byte() {
    let input = "añb→c😀 rest";
    let mut sc = Scanner::new(input.as_bytes());
    assert_eq!(vec!['a', 'ñ', 'b', '→', 'c', '😀'], sc.chars());
    assert_eq!("rest", sc.read());
}

#[test]
fn vec_of_nothing_reads_nothing() {
    let mut sc = Scanner::new(b"1 2");
    assert_eq!(Vec::<String>::new(), sc.vec(0));
    assert_eq!(b"1 2", sc.remaining());
}

#[test]
fn phases_of_one_token() {
    assert_eq!(Phase::Leading, next_phase(Phase::Leading, b' '));
    assert_eq!(Phase::Inside, next_phase(Phase::Leading, b'x'));
    assert_eq!(Phase::Inside, next_phase(Phase::Inside, b'y'));
    assert_eq!(Phase::Done, next_phase(Phase::Inside, b'\n'));
    assert_eq!(Phase::Done, next_phase(Phase::Done, b'z'));
    assert_eq!(Phase::Done, next_phase(Phase::Done, b' '));
}

#[test]
fn reading_by_bytes_stops_where_the_token_does() {
    let input = b" \t12 345\n6";
    let mut phase = Phase::Leading;
    let mut taken = 0;
    for &b in input.iter() {
        taken += 1;
        phase = next_phase(phase, b);
        if phase == Phase::Done {
            break;
        }
    }
    let mut whole = Scanner::new(input);
    let mut part = Scanner::new(&input[..taken]);
    assert_eq!(whole.token(), part.token());
    assert_eq!(b"", part.remaining());
    assert_eq!(input.len() - taken, whole.remaining().len());
    assert_eq!(b"345\n6", whole.remaining());
}
