use vstd::prelude::*;
use vstd::string::StringSliceAdditionalSpecFns;
use vstd::utf8::*;

verus! {

broadcast use {
    encode_utf8_valid_utf8,
    valid_utf8_split,
    is_char_boundary_start_end_of_seq,
    is_char_boundary_iff_not_is_continuation_byte,
};

/// ASCII whitespace as `u8::is_ascii_whitespace` has it: space, tab, line feed, form feed and
/// carriage return.
pub open spec fn is_ws(b: u8) -> bool {
    b == 0x20 || b == 0x09 || b == 0x0a || b == 0x0c || b == 0x0d
}

/// The first position at or after `i` that holds no whitespace (or the end).
pub open spec fn skip_ws(b: Seq<u8>, i: int) -> int
    decreases b.len() - i,
{
    if 0 <= i < b.len() && is_ws(b[i]) {
        skip_ws(b, i + 1)
    } else {
        i
    }
}

/// The first position at or after `i` that holds whitespace (or the end).
pub open spec fn token_end(b: Seq<u8>, i: int) -> int
    decreases b.len() - i,
{
    if 0 <= i < b.len() && !is_ws(b[i]) {
        token_end(b, i + 1)
    } else {
        i
    }
}

/// Where reading from position `i` stops after `n` tokens; `None` when fewer remain.
pub open spec fn after_tokens(b: Seq<u8>, i: int, n: nat) -> Option<int>
    decreases n,
{
    if n == 0 {
        Some(i)
    } else {
        let s = skip_ws(b, i);
        if s >= b.len() {
            None
        } else {
            after_tokens(b, token_end(b, s), (n - 1) as nat)
        }
    }
}

proof fn lemma_skip_ws(b: Seq<u8>, i: int)
    requires
        0 <= i <= b.len(),
    ensures
        i <= skip_ws(b, i) <= b.len(),
        forall|k: int| i <= k < skip_ws(b, i) ==> is_ws(#[trigger] b[k]),
        skip_ws(b, i) < b.len() ==> !is_ws(b[skip_ws(b, i)]),
    decreases b.len() - i,
{
    if i < b.len() && is_ws(b[i]) {
        lemma_skip_ws(b, i + 1);
    }
}

proof fn lemma_token_end(b: Seq<u8>, i: int)
    requires
        0 <= i <= b.len(),
    ensures
        i <= token_end(b, i) <= b.len(),
        forall|k: int| i <= k < token_end(b, i) ==> !is_ws(#[trigger] b[k]),
        token_end(b, i) < b.len() ==> is_ws(b[token_end(b, i)]),
    decreases b.len() - i,
{
    if i < b.len() && !is_ws(b[i]) {
        lemma_token_end(b, i + 1);
    }
}

/// In valid UTF-8, the position just after an ASCII byte that starts a character starts a
/// character too.
proof fn lemma_ascii_step(b: Seq<u8>, i: int)
    requires
        valid_utf8(b),
        0 <= i < b.len(),
        is_char_boundary(b, i),
        b[i] <= 0x7f,
    ensures
        is_char_boundary(b, i + 1),
    decreases b.len(),
{
    let p = pop_first_scalar(b);
    let l = length_of_first_scalar(b);
    assert(valid_first_scalar(b) && valid_utf8(p));
    if i == 0 {
        assert(l == 1);
        assert(is_char_boundary(p, 0));
    } else {
        assert(is_char_boundary(b, i) == is_char_boundary(p, i - l));
        assert(p.len() == b.len() - l);
        assert(p[i - l] == b[i]);
        lemma_ascii_step(p, i - l);
        assert(is_char_boundary(b, i + 1) == is_char_boundary(p, i + 1 - l));
    }
}

/// Reading `m + j` tokens from `i` is reading `m` tokens, then `j` more from where those stop.
proof fn lemma_after_tokens_split(b: Seq<u8>, i: int, m: nat, j: nat)
    ensures
        after_tokens(b, i, m + j) == match after_tokens(b, i, m) {
            Some(q) => after_tokens(b, q, j),
            None => None,
        },
    decreases m,
{
    if m > 0 {
        let s = skip_ws(b, i);
        if s < b.len() {
            lemma_after_tokens_split(b, token_end(b, s), (m - 1) as nat, j);
            assert((m + j - 1) as nat == (m - 1) as nat + j);
        }
    }
}

proof fn lemma_after_tokens_stuck(b: Seq<u8>, i: int, n: nat)
    requires
        n > 0,
        skip_ws(b, i) >= b.len(),
    ensures
        after_tokens(b, i, n) is None,
{
}

/// Reads whitespace-separated tokens from a text held in memory.
pub struct Scanner {
    buf: String,
    pos: usize,
}

impl Scanner {
    /// The bytes of the text.
    pub closed spec fn bytes(&self) -> Seq<u8> {
        encode_utf8(self.buf@)
    }

    /// How far reading has got, in bytes.
    pub closed spec fn position(&self) -> int {
        self.pos as int
    }

    /// The read position is at the start, at the end, or on a whitespace byte.
    pub closed spec fn wf(&self) -> bool {
        &&& self.pos <= self.bytes().len()
        &&& (self.pos == 0 || self.pos == self.bytes().len() || is_ws(self.bytes()[self.pos as int]))
    }

    /// A scanner that reads `input` from its start.
    pub fn new(input: String) -> (sc: Self)
        ensures
            sc.wf(),
            sc.bytes() == encode_utf8(input@),
            sc.position() == 0,
    {
        Scanner { buf: input, pos: 0 }
    }

    /// The next token: the longest stretch without whitespace after the whitespace at the read
    /// position. `None` once only whitespace is left, with the read position at the end.
    pub fn next_token(&mut self) -> (r: Option<&str>)
        requires
            old(self).wf(),
        ensures
            final(self).wf(),
            final(self).bytes() == old(self).bytes(),
            ({
                let b = old(self).bytes();
                let s = skip_ws(b, old(self).position());
                match r {
                    None => s == b.len() && final(self).position() == s,
                    Some(t) => s < b.len() && t.spec_bytes() == b.subrange(s, token_end(b, s))
                        && final(self).position() == token_end(b, s),
                }
            }),
    {
        let ghost b = self.bytes();
        let ghost p = self.pos as int;
        let s: &str = self.buf.as_str();
        let bytes: &[u8] = s.as_bytes();
        assert(bytes@ == b);
        proof {
            lemma_skip_ws(b, p);
            encode_utf8_valid_utf8(self.buf@);
            if p == b.len() {
                is_char_boundary_start_end_of_seq(b);
            } else if p > 0 {
                is_char_boundary_iff_not_is_continuation_byte(b, p);
            }
            assert(is_char_boundary(b, p));
        }
        let mut start = self.pos;
        while start < bytes.len() && is_whitespace(bytes[start])
            invariant
                bytes@ == b,
                p <= start <= b.len(),
                skip_ws(b, start as int) == skip_ws(b, p),
                is_char_boundary(b, start as int),
                valid_utf8(b),
            decreases b.len() - start,
        {
            proof {
                lemma_ascii_step(b, start as int);
            }
            start = start + 1;
        }
        if start == bytes.len() {
            self.pos = start;
            return None;
        }
        let mut end = start;
        proof {
            lemma_token_end(b, start as int);
        }
        while end < bytes.len() && !is_whitespace(bytes[end])
            invariant
                bytes@ == b,
                start <= end <= b.len(),
                token_end(b, end as int) == token_end(b, start as int),
            decreases b.len() - end,
        {
            end = end + 1;
        }
        self.pos = end;
        let (_, right) = s.split_at(start);
        proof {
            let rb = b.subrange(start as int, b.len() as int);
            assert(right.spec_bytes() =~= rb);
            valid_utf8_split(b, start as int);
            if end < b.len() {
                assert(rb[end - start] == b[end as int]);
                is_char_boundary_iff_not_is_continuation_byte(rb, end - start);
            } else {
                assert(end - start == rb.len());
                is_char_boundary_start_end_of_seq(rb);
            }
        }
        let (tok, _) = right.split_at(end - start);
        proof {
            assert(tok.spec_bytes() =~= b.subrange(start as int, end as int));
        }
        Some(tok)
    }

    /// Whether a token remains: something other than whitespace after the read position.
    pub fn has_token(&self) -> (r: bool)
        requires
            self.wf(),
        ensures
            r == (skip_ws(self.bytes(), self.position()) < self.bytes().len()),
    {
        let ghost b = self.bytes();
        let bytes: &[u8] = self.buf.as_str().as_bytes();
        proof {
            lemma_skip_ws(b, self.pos as int);
        }
        let mut i = self.pos;
        while i < bytes.len() && is_whitespace(bytes[i])
            invariant
                bytes@ == b,
                self.pos <= i <= b.len(),
                skip_ws(b, i as int) == skip_ws(b, self.pos as int),
            decreases b.len() - i,
        {
            i = i + 1;
        }
        i < bytes.len()
    }

    /// Reads the next token, which must be there, as a `T`; `None` when `T` does not accept it
    /// (it is consumed all the same).
    pub fn read<T: std::str::FromStr>(&mut self) -> (r: Option<T>)
        requires
            old(self).wf(),
            skip_ws(old(self).bytes(), old(self).position()) < old(self).bytes().len(),
        ensures
            final(self).wf(),
            final(self).bytes() == old(self).bytes(),
            final(self).position() == token_end(old(self).bytes(), skip_ws(old(self).bytes(), old(self).position())),
    {
        match self.next_token() {
            None => None,
            Some(token) => parse_token(token),
        }
    }

    /// Reads the next `n` tokens, which must be there, as `T`s; `None` when `T` does not accept
    /// one of them, the read position then just after the refused token.
    pub fn read_vec<T: std::str::FromStr>(&mut self, n: usize) -> (r: Option<Vec<T>>)
        requires
            old(self).wf(),
            after_tokens(old(self).bytes(), old(self).position(), n as nat) is Some,
        ensures
            final(self).wf(),
            final(self).bytes() == old(self).bytes(),
            r is None ==> exists|k: nat|
                0 < k <= n && #[trigger] after_tokens(old(self).bytes(), old(self).position(), k)
                    == Some(final(self).position()),
            r matches Some(v) ==> v@.len() == n && after_tokens(
                old(self).bytes(),
                old(self).position(),
                n as nat,
            ) == Some(final(self).position()),
    {
        let ghost b = self.bytes();
        let ghost p = self.position();
        let mut v: Vec<T> = Vec::new();
        let mut i: usize = 0;
        while i < n
            invariant
                self.wf(),
                self.bytes() == b,
                b == old(self).bytes(),
                p == old(self).position(),
                i <= n,
                v@.len() == i,
                after_tokens(b, p, n as nat) == after_tokens(b, self.position(), (n - i) as nat),
                after_tokens(b, p, i as nat) == Some(self.position()),
                after_tokens(b, p, n as nat) is Some,
            decreases n - i,
        {
            let ghost q = self.position();
            proof {
                lemma_skip_ws(b, q);
                if skip_ws(b, q) >= b.len() {
                    lemma_after_tokens_stuck(b, q, (n - i) as nat);
                }
            }
            match self.read() {
                None => {
                    proof {
                        let e = token_end(b, skip_ws(b, q));
                        assert(after_tokens(b, e, 0) == Some(e));
                        assert(after_tokens(b, q, 1) == Some(e));
                        lemma_after_tokens_split(b, p, i as nat, 1);
                        assert(after_tokens(b, p, (i + 1) as nat) == Some(self.position()));
                    }
                    return None;
                },
                Some(x) => {
                    proof {
                        let e = token_end(b, skip_ws(b, q));
                        assert(after_tokens(b, e, 0) == Some(e));
                        assert(after_tokens(b, q, 1) == Some(e));
                        lemma_after_tokens_split(b, p, i as nat, 1);
                    }
                    v.push(x);
                },
            }
            i = i + 1;
        }
        Some(v)
    }
}

/// `str::parse`: the token read as a `T`, or `None` where `T`'s `FromStr` refuses it.
/// Nothing is stated of the value, which `T`'s own `FromStr` decides.
#[verifier::external_body]
fn parse_token<T: std::str::FromStr>(token: &str) -> Option<T> {
    token.parse().ok()
}

/// Whether `b` is ASCII whitespace.
fn is_whitespace(b: u8) -> (r: bool)
    ensures
        r == is_ws(b),
{
    b == 0x20 || b == 0x09 || b == 0x0a || b == 0x0c || b == 0x0d
}

} // verus!
