use vstd::prelude::*;
use crate::mo::MoSol;
use crate::window_stats::{count, lemma_count_bound, lemma_count_prepend};

verus! {

/// `c[0] + ... + c[k - 1]`.
pub open spec fn prefix(c: Seq<usize>, k: int) -> int
    decreases k,
{
    if k <= 0 {
        0
    } else {
        prefix(c, k - 1) + c[k - 1]
    }
}

/// How many times each lowercase letter occurs in a window of a text, kept up to date as
/// letters come and go.
pub struct LetterCount {
    s: Vec<usize>,
    cnt: [usize; 26],
    lo: Ghost<int>,
    hi: Ghost<int>,
}

impl LetterCount {
    /// The letters of the text, `a` as `0`.
    pub closed spec fn letters(&self) -> Seq<usize> {
        self.s@
    }

    /// How many times each letter occurs in the window.
    pub closed spec fn counts(&self) -> Seq<usize> {
        self.cnt@
    }

    /// Every letter is one of the 26.
    pub closed spec fn wf(&self) -> bool {
        forall|i: int| 0 <= i < self.s@.len() ==> #[trigger] self.s@[i] < 26
    }

    /// The letters as integers.
    pub open spec fn letter_ints(&self) -> Seq<int> {
        self.letters().map_values(|x: usize| x as int)
    }

    /// The counts are those of the window `[lo, hi)`.
    closed spec fn window_ok(&self) -> bool {
        &&& 0 <= self.lo@ <= self.hi@ <= self.s@.len() <= usize::MAX
        &&& forall|c: int| 0 <= c < 26 ==> #[trigger] self.cnt@[c] == count(self.letter_ints(), self.lo@, self.hi@, c, 0)
    }

    /// An empty window over the text `s`, made of lowercase ASCII letters.
    pub fn new(s: &Vec<u8>) -> (lc: Self)
        requires
            forall|i: int| 0 <= i < s@.len() ==> 0x61 <= #[trigger] s@[i] <= 0x7a,
        ensures
            lc.wf(),
            lc.inv(),
            lc.start() == 0,
            lc.end() == 0,
            lc.extent() == s@.len(),
            lc.letters().len() == s@.len(),
            forall|i: int| 0 <= i < s@.len() ==> #[trigger] lc.letters()[i] == s@[i] - 0x61,
            forall|c: int| 0 <= c < 26 ==> #[trigger] lc.counts()[c] == 0,
    {
        let mut letters: Vec<usize> = Vec::new();
        let mut i: usize = 0;
        while i < s.len()
            invariant
                i <= s@.len(),
                forall|q: int| 0 <= q < s@.len() ==> 0x61 <= #[trigger] s@[q] <= 0x7a,
                letters@.len() == i,
                forall|q: int| 0 <= q < i ==> #[trigger] letters@[q] == s@[q] - 0x61,
            decreases s@.len() - i,
        {
            letters.push((s[i] - 0x61) as usize);
            i = i + 1;
        }
        let lc = LetterCount { s: letters, cnt: [0; 26], lo: Ghost(0), hi: Ghost(0) };
        assert(lc.cnt@.len() == 26);
        assert forall|c: int| 0 <= c < 26 implies #[trigger] lc.cnt@[c] == count(lc.letter_ints(), 0, 0, c, 0) by {}
        lc
    }

    /// Takes letter `i` into the window.
    fn add(&mut self, i: usize)
        requires
            old(self).wf(),
            i < old(self).letters().len(),
            old(self).counts()[old(self).letters()[i as int] as int] < usize::MAX,
        ensures
            final(self).wf(),
            final(self).lo == old(self).lo,
            final(self).hi == old(self).hi,
            final(self).letters() == old(self).letters(),
            final(self).counts() == old(self).counts().update(
                old(self).letters()[i as int] as int,
                (old(self).counts()[old(self).letters()[i as int] as int] + 1) as usize,
            ),
    {
        let c = self.s[i];
        let k = self.cnt[c];
        self.cnt.set(c, k + 1);
    }

    /// Lets letter `i` go from the window, which holds that letter.
    fn del(&mut self, i: usize)
        requires
            old(self).wf(),
            i < old(self).letters().len(),
            old(self).counts()[old(self).letters()[i as int] as int] > 0,
        ensures
            final(self).wf(),
            final(self).lo == old(self).lo,
            final(self).hi == old(self).hi,
            final(self).letters() == old(self).letters(),
            final(self).counts() == old(self).counts().update(
                old(self).letters()[i as int] as int,
                (old(self).counts()[old(self).letters()[i as int] as int] - 1) as usize,
            ),
    {
        let c = self.s[i];
        let k = self.cnt[c];
        self.cnt.set(c, k - 1);
    }


    /// The counts of the window's letters.
    fn solve(&self) -> (r: [usize; 26])
        ensures
            r@ == self.counts(),
    {
        self.cnt
    }
}

/// The `x`-th letter (counting from 1) of the smallest arrangement of a multiset of letters
/// with the counts `cnt`: the first letter `c` with `x <= cnt[0] + ... + cnt[c]`, or `None`
/// when there are fewer than `x` letters. (For `x == 0` that is letter `0`.)
pub fn kth_letter(cnt: &[usize; 26], x: usize) -> (r: Option<usize>)
    ensures
        match r {
            Some(c) => c < 26 && x <= prefix(cnt@, c + 1) && (c > 0 ==> prefix(cnt@, c as int) < x),
            None => prefix(cnt@, 26) < x,
        },
{
    let mut rest = x;
    let mut c: usize = 0;
    while c < 26
        invariant
            c <= 26,
            cnt@.len() == 26,
            x == 0 ==> c == 0,
            rest + prefix(cnt@, c as int) == x,
            c > 0 ==> rest > 0,
        decreases 26 - c,
    {
        let k = cnt[c];
        if rest <= k {
            return Some(c);
        }
        rest = rest - k;
        c = c + 1;
    }
    None
}


impl MoSol for LetterCount {
    type Ans = [usize; 26];

    const MAX_INDEX_POW2: usize = 14;

    closed spec fn inv(&self) -> bool {
        self.wf() && self.window_ok()
    }

    closed spec fn start(&self) -> int {
        self.lo@
    }

    closed spec fn end(&self) -> int {
        self.hi@
    }

    closed spec fn extent(&self) -> int {
        self.s@.len() as int
    }

    /// `ans[c]` is how many times letter `c` occurs at positions `l..r`.
    open spec fn answers(&self, l: int, r: int, ans: [usize; 26]) -> bool {
        forall|c: int| 0 <= c < 26 ==> #[trigger] ans@[c] == count(self.letter_ints(), l, r, c, 0)
    }

    fn add_l(&mut self, l_idx: usize) {
        let ghost s = self.letter_ints();
        let ghost (lo, hi) = (self.lo@, self.hi@);
        proof {
            assert(s[l_idx as int] == self.s@[l_idx as int] as int);
            lemma_count_bound(s, lo, hi, s[l_idx as int], 0);
        }
        self.add(l_idx);
        self.lo = Ghost(l_idx as int);
        proof {
            assert forall|c: int| 0 <= c < 26 implies #[trigger] self.cnt@[c] == count(s, lo - 1, hi, c, 0) by {
                lemma_count_prepend(s, lo, hi, c, 0);
            }
        }
    }

    fn add_r(&mut self, r_idx: usize) {
        let ghost s = self.letter_ints();
        let ghost (lo, hi) = (self.lo@, self.hi@);
        proof {
            assert(s[r_idx as int] == self.s@[r_idx as int] as int);
            lemma_count_bound(s, lo, hi, s[r_idx as int], 0);
        }
        self.add(r_idx);
        self.hi = Ghost(r_idx + 1);
        proof {
            assert forall|c: int| 0 <= c < 26 implies #[trigger] self.cnt@[c] == count(s, lo, hi + 1, c, 0) by {}
        }
    }

    fn del_l(&mut self, l_idx: usize) {
        let ghost s = self.letter_ints();
        let ghost (lo, hi) = (self.lo@, self.hi@);
        proof {
            assert(s[l_idx as int] == self.s@[l_idx as int] as int);
            lemma_count_prepend(s, lo + 1, hi, s[l_idx as int], 0);
            lemma_count_bound(s, lo + 1, hi, s[l_idx as int], 0);
        }
        self.del(l_idx);
        self.lo = Ghost(l_idx + 1);
        proof {
            assert forall|c: int| 0 <= c < 26 implies #[trigger] self.cnt@[c] == count(s, lo + 1, hi, c, 0) by {
                lemma_count_prepend(s, lo + 1, hi, c, 0);
            }
        }
    }

    fn del_r(&mut self, r_idx: usize) {
        let ghost s = self.letter_ints();
        let ghost (lo, hi) = (self.lo@, self.hi@);
        proof {
            assert(s[r_idx as int] == self.s@[r_idx as int] as int);
            lemma_count_bound(s, lo, hi - 1, s[r_idx as int], 0);
        }
        self.del(r_idx);
        self.hi = Ghost(r_idx as int);
        proof {
            assert forall|c: int| 0 <= c < 26 implies #[trigger] self.cnt@[c] == count(s, lo, hi - 1, c, 0) by {}
        }
    }

    fn solve(&mut self) -> (r: [usize; 26]) {
        LetterCount::solve(self)
    }
}

} // verus!
