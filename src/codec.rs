use vstd::prelude::*;

verus! {

/// The codec decision that is sent to clients: two alternating version slots
/// and which of them is preferred.
#[derive(Clone, Copy, Debug, PartialEq, Eq, Structural)]
pub struct CodecVersion {
    pub alpha: i32,
    pub beta: i32,
    pub opus: bool,
    pub prefer_alpha: bool,
}

/// How many times `v` occurs in `s`.
pub open spec fn count_in(s: Seq<i32>, v: i32) -> nat
    decreases s.len(),
{
    if s.len() == 0 {
        0
    } else {
        count_in(s.drop_last(), v) + if s.last() == v {
            1nat
        } else {
            0nat
        }
    }
}

/// `s[j]` occurs at least as often as any other value of `s`, and `j` is the
/// first index whose value reaches that count.
pub open spec fn first_plurality_at(s: Seq<i32>, j: int) -> bool {
    &&& 0 <= j < s.len()
    &&& forall|k: int| 0 <= k < s.len() ==> count_in(s, #[trigger] s[k]) <= count_in(s, s[j])
    &&& forall|k: int| 0 <= k < j ==> count_in(s, #[trigger] s[k]) < count_in(s, s[j])
}

proof fn lemma_count_step(s: Seq<i32>, i: int, v: i32)
    requires
        0 <= i < s.len(),
    ensures
        count_in(s.subrange(0, i + 1), v) == count_in(s.subrange(0, i), v) + if s[i] == v {
            1nat
        } else {
            0nat
        },
{
    assert(s.subrange(0, i + 1).drop_last() =~= s.subrange(0, i));
}

/// Number of occurrences of `x` in `v`.
pub fn count_of(v: &Vec<i32>, x: i32) -> (c: usize)
    ensures
        c == count_in(v@, x),
{
    let mut c: usize = 0;
    let mut i: usize = 0;
    while i < v.len()
        invariant
            i <= v.len(),
            c <= i,
            c == count_in(v@.subrange(0, i as int), x),
        decreases v.len() - i,
    {
        proof {
            lemma_count_step(v@, i as int, x);
        }
        if v[i] == x {
            c = c + 1;
        }
        i = i + 1;
    }
    assert(v@.subrange(0, v.len() as int) =~= v@);
    c
}

/// The most advertised version among `versions`; the first one in order
/// wins a tie, and `current` is kept when nothing is advertised.
pub fn plurality_version(versions: &Vec<i32>, current: i32) -> (r: i32)
    ensures
        versions@.len() == 0 ==> r == current,
        versions@.len() > 0 ==> exists|j: int| first_plurality_at(versions@, j) && versions@[j] == r,
{
    if versions.len() == 0 {
        return current;
    }
    let mut best_j: usize = 0;
    let mut best_c: usize = count_of(versions, versions[0]);
    let mut i: usize = 1;
    while i < versions.len()
        invariant
            1 <= i <= versions.len(),
            best_j < i,
            best_c == count_in(versions@, versions@[best_j as int]),
            forall|k: int| 0 <= k < i ==> count_in(versions@, #[trigger] versions@[k]) <= best_c,
            forall|k: int| 0 <= k < best_j ==> count_in(versions@, #[trigger] versions@[k]) < best_c,
        decreases versions.len() - i,
    {
        let c = count_of(versions, versions[i]);
        if c > best_c {
            best_c = c;
            best_j = i;
        }
        i = i + 1;
    }
    assert(first_plurality_at(versions@, best_j as int));
    versions[best_j]
}

/// The server's current codec preference.
#[derive(Clone, Copy, Debug, PartialEq, Eq, Structural)]
pub struct CodecState {
    pub opus: bool,
    pub alpha: i32,
    pub beta: i32,
    pub prefer_alpha: bool,
}

impl CodecState {
    /// The version held in the preferred slot.
    pub open spec fn version(self) -> i32 {
        if self.prefer_alpha {
            self.alpha
        } else {
            self.beta
        }
    }

    pub open spec fn codec_version(self) -> CodecVersion {
        CodecVersion {
            alpha: self.alpha,
            beta: self.beta,
            opus: self.opus,
            prefer_alpha: self.prefer_alpha,
        }
    }

    pub fn get_version(&self) -> (r: i32)
        ensures
            r == self.version(),
    {
        if self.prefer_alpha {
            return self.alpha;
        }
        self.beta
    }

    pub fn get_codec_version(&self) -> (r: CodecVersion)
        ensures
            r == self.codec_version(),
    {
        CodecVersion {
            alpha: self.alpha,
            beta: self.beta,
            opus: self.opus,
            prefer_alpha: self.prefer_alpha,
        }
    }
}

impl CodecState {
    /// The state after the plurality moved to `v`: the other slot becomes
    /// the preferred one and holds `v`.
    pub open spec fn switched_to(self, v: i32) -> CodecState {
        if self.prefer_alpha {
            CodecState { prefer_alpha: false, beta: v, ..self }
        } else {
            CodecState { prefer_alpha: true, alpha: v, ..self }
        }
    }

    /// Flips the preferred slot and writes `v` into it.
    pub fn switch_to(&mut self, v: i32)
        ensures
            *final(self) == old(self).switched_to(v),
            final(self).version() == v,
    {
        self.prefer_alpha = !self.prefer_alpha;
        if self.prefer_alpha {
            self.alpha = v;
        } else {
            self.beta = v;
        }
    }
}

/// `v` is what the tally of `s` picks when the current version is `current`.
pub open spec fn plurality_choice(s: Seq<i32>, current: i32, v: i32) -> bool {
    if s.len() == 0 {
        v == current
    } else {
        exists|j: int| first_plurality_at(s, j) && s[j] == v
    }
}

impl Default for CodecState {
    fn default() -> (r: CodecState)
        ensures
            r == (CodecState { opus: true, alpha: 0, beta: 0, prefer_alpha: false }),
    {
        CodecState { opus: true, alpha: 0, beta: 0, prefer_alpha: false }
    }
}

} // verus!
