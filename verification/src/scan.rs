//! Splits input into the tokens that white space separates.

use vstd::prelude::*;
use vstd::utf8::{decode_utf8, valid_utf8};

verus! {

/// The byte is white space when read as a character: a tab, a line feed, a
/// vertical tab, a form feed, a carriage return, a space, a next-line
/// character or a no-break space.
pub open spec fn is_space(b: u8) -> bool {
    9 <= b <= 13 || b == 32 || b == 0x85 || b == 0xa0
}

/// Where the run that starts at `from` ends: the first position from there
/// on whose byte is white space other than `spaces` says, or the end of `s`.
pub open spec fn run_end(s: Seq<u8>, from: int, spaces: bool) -> int
    decreases s.len() - from,
{
    if 0 <= from < s.len() && is_space(s[from]) == spaces {
        run_end(s, from + 1, spaces)
    } else {
        from
    }
}

/// Where the first token of `s` starts: behind the leading white space.
pub open spec fn token_start(s: Seq<u8>) -> int {
    run_end(s, 0, true)
}

/// Where the first token of `s` ends: at the first white space behind its
/// start, or at the end of `s`.
pub open spec fn token_end(s: Seq<u8>) -> int {
    run_end(s, token_start(s), false)
}

/// The first token of `s`; empty where `s` holds nothing but white space.
pub open spec fn first_token(s: Seq<u8>) -> Seq<u8> {
    s.subrange(token_start(s), token_end(s))
}

/// What is left of `s` when its first token has been read: what follows the
/// one white space byte that ends the token.
pub open spec fn after_token(s: Seq<u8>) -> Seq<u8> {
    if token_end(s) < s.len() {
        s.skip(token_end(s) + 1)
    } else {
        s.skip(token_end(s))
    }
}

/// What is left of `s` when `n` tokens have been read.
pub open spec fn after_tokens(s: Seq<u8>, n: nat) -> Seq<u8>
    decreases n,
{
    if n == 0 {
        s
    } else {
        after_token(after_tokens(s, (n - 1) as nat))
    }
}

/// The token of `s` that `k` tokens come before.
pub open spec fn nth_token(s: Seq<u8>, k: nat) -> Seq<u8> {
    first_token(after_tokens(s, k))
}

/// A run ends between its start and the end of the input.
pub proof fn lemma_run_end_bounds(s: Seq<u8>, from: int, spaces: bool)
    requires
        0 <= from <= s.len(),
    ensures
        from <= run_end(s, from, spaces) <= s.len(),
    decreases s.len() - from,
{
    if from < s.len() && is_space(s[from]) == spaces {
        lemma_run_end_bounds(s, from + 1, spaces);
    }
}

/// Appending a byte to the input moves the end of a run that had reached
/// the end of the input, and no other.
pub proof fn lemma_run_end_push(s: Seq<u8>, b: u8, from: int, spaces: bool)
    requires
        0 <= from <= s.len(),
    ensures
        run_end(s.push(b), from, spaces) == if run_end(s, from, spaces) < s.len() {
            run_end(s, from, spaces)
        } else if is_space(b) == spaces {
            s.len() as int + 1
        } else {
            s.len() as int
        },
    decreases s.len() - from,
{
    let t = s.push(b);
    if from < s.len() {
        assert(t[from] == s[from]);
        if is_space(s[from]) == spaces {
            lemma_run_end_push(s, b, from + 1, spaces);
        }
    } else {
        assert(t[from] == b);
        assert(run_end(t, from + 1, spaces) == from + 1);
    }
}

/// How far the reading of one token has come, byte by byte.
#[derive(Clone, Copy, Debug, PartialEq, Eq, Structural)]
pub enum Phase {
    /// Nothing but white space so far.
    Leading,
    /// Inside the token.
    Inside,
    /// The white space byte that ends the token has come.
    Done,
}

/// The phase that reading is in when the bytes of `s` have come.
pub open spec fn phase_of(s: Seq<u8>) -> Phase {
    if token_start(s) >= s.len() {
        Phase::Leading
    } else if token_end(s) >= s.len() {
        Phase::Inside
    } else {
        Phase::Done
    }
}

/// The phase that follows `phase` when the byte `b` comes.
pub open spec fn phase_step(phase: Phase, b: u8) -> Phase {
    match phase {
        Phase::Leading => if is_space(b) {
            Phase::Leading
        } else {
            Phase::Inside
        },
        Phase::Inside => if is_space(b) {
            Phase::Done
        } else {
            Phase::Inside
        },
        Phase::Done => Phase::Done,
    }
}

/// Reading byte by byte follows the tokens: until a token is done, one more
/// byte moves the phase by `phase_step`; and a token is done with the byte
/// that ends it, so that the bytes read hold that token and nothing behind
/// it.
pub proof fn law_phase_follows_tokens(s: Seq<u8>, b: u8)
    requires
        phase_of(s) != Phase::Done,
    ensures
        phase_of(s.push(b)) == phase_step(phase_of(s), b),
        phase_of(s.push(b)) == Phase::Done ==> {
            &&& first_token(s.push(b)) == s.skip(token_start(s))
            &&& after_token(s.push(b)) == Seq::<u8>::empty()
        },
{
    let t = s.push(b);
    lemma_run_end_bounds(s, 0, true);
    lemma_run_end_push(s, b, 0, true);
    if token_start(s) < s.len() {
        lemma_run_end_bounds(s, token_start(s), false);
        lemma_run_end_push(s, b, token_start(s), false);
        if is_space(b) {
            assert(t.subrange(token_start(s), s.len() as int) == s.skip(token_start(s)));
            assert(t.skip(s.len() as int + 1) == Seq::<u8>::empty());
        }
    } else {
        assert(run_end(t, s.len() as int + 1, false) == s.len() + 1);
        if !is_space(b) {
            assert(t[s.len() as int] == b);
            assert(run_end(t, s.len() as int, false) == run_end(t, s.len() as int + 1, false));
        }
    }
}

/// Tells white space from the rest.
pub fn is_whitespace(b: u8) -> (r: bool)
    ensures
        r == is_space(b),
{
    (9 <= b && b <= 13) || b == 32 || b == 0x85 || b == 0xa0
}

/// The phase that follows `phase` when the byte `b` has been read.
pub fn next_phase(phase: Phase, b: u8) -> (r: Phase)
    ensures
        r == phase_step(phase, b),
{
    match phase {
        Phase::Leading => if is_whitespace(b) {
            Phase::Leading
        } else {
            Phase::Inside
        },
        Phase::Inside => if is_whitespace(b) {
            Phase::Done
        } else {
            Phase::Inside
        },
        Phase::Done => Phase::Done,
    }
}

/// Calls `core::str::from_utf8`. Its contract is taken on trust, not proved:
/// the call accepts exactly the byte sequences that are valid UTF-8, and the
/// string slice that it then gives holds the characters that they encode.
#[verifier::external_body]
fn as_utf8(bytes: &[u8]) -> (r: Option<&str>)
    ensures
        r is Some <==> valid_utf8(bytes@),
        r is Some ==> r->0@ == decode_utf8(bytes@),
{
    match core::str::from_utf8(bytes) {
        Ok(s) => Some(s),
        Err(_) => None,
    }
}

/// Wraps the bytes of an input. Reads tokens.
///
/// Its view is the input that has not been read yet.
pub struct Scanner<'a> {
    rest: &'a [u8],
}

impl<'a> View for Scanner<'a> {
    type V = Seq<u8>;

    closed spec fn view(&self) -> Seq<u8> {
        self.rest@
    }
}

impl<'a> Scanner<'a> {
    /// Builds a scanner out of the bytes of an input.
    pub fn new(reader: &'a [u8]) -> (r: Self)
        ensures
            r@ == reader@,
    {
        Self { rest: reader }
    }

    /// The input that has not been read yet.
    pub fn remaining(&self) -> (r: &'a [u8])
        ensures
            r@ == self@,
    {
        self.rest
    }

    /// Reads the bytes of a token: skips white space, takes what stands
    /// before the next white space, and passes over that one byte.
    pub fn token(&mut self) -> (r: &'a [u8])
        ensures
            r@ == first_token(old(self)@),
            final(self)@ == after_token(old(self)@),
    {
        let s: &'a [u8] = self.rest;
        let n: usize = s.len();
        let mut i: usize = 0;
        while i < n && is_whitespace(s[i])
            invariant
                i <= n == s@.len(),
                run_end(s@, i as int, true) == token_start(s@),
            decreases n - i,
        {
            i += 1;
        }
        let start: usize = i;
        while i < n && !is_whitespace(s[i])
            invariant
                start <= i <= n == s@.len(),
                start == token_start(s@),
                run_end(s@, i as int, false) == token_end(s@),
            decreases n - i,
        {
            i += 1;
        }
        let token: &'a [u8] = &s[start..i];
        if i < n {
            self.rest = &s[i + 1..n];
        } else {
            self.rest = &s[i..n];
        }
        token
    }

    /// Reads a token.
    ///
    /// The token has to be valid UTF-8.
    pub fn read(&mut self) -> (r: String)
        requires
            valid_utf8(first_token(old(self)@)),
        ensures
            r@ == decode_utf8(first_token(old(self)@)),
            final(self)@ == after_token(old(self)@),
    {
        let token: &[u8] = self.token();
        match as_utf8(token) {
            Some(s) => s.to_owned(),
            None => String::new(),
        }
    }

    /// Reads n tokens. Returns in Vec.
    pub fn vec(&mut self, n: usize) -> (r: Vec<String>)
        requires
            forall|k: nat| k < n ==> valid_utf8(#[trigger] nth_token(old(self)@, k)),
        ensures
            r.len() == n,
            forall|k: nat| k < n ==> r[k as int]@ == decode_utf8(#[trigger] nth_token(old(self)@, k)),
            final(self)@ == after_tokens(old(self)@, n as nat),
    {
        let ghost all = self@;
        let mut out: Vec<String> = Vec::new();
        let mut done: usize = 0;
        while done < n
            invariant
                done <= n,
                out.len() == done,
                self@ == after_tokens(all, done as nat),
                forall|k: nat| k < n ==> valid_utf8(#[trigger] nth_token(all, k)),
                forall|k: nat|
                    k < done ==> out[k as int]@ == decode_utf8(#[trigger] nth_token(all, k)),
            decreases n - done,
        {
            assert(valid_utf8(nth_token(all, done as nat)));
            let item: String = self.read();
            out.push(item);
            done += 1;
        }
        out
    }

    /// Reads a string. Returns in Vec\<char\>.
    pub fn chars(&mut self) -> (r: Vec<char>)
        requires
            valid_utf8(first_token(old(self)@)),
        ensures
            r@ == decode_utf8(first_token(old(self)@)),
            final(self)@ == after_token(old(self)@),
    {
        let token: String = self.read();
        let mut out: Vec<char> = Vec::new();
        for c in it: token.as_str().chars()
            invariant
                out@ == it.seq().take(it.index() as int),
        {
            out.push(c);
        }
        out
    }
}

} // verus!
