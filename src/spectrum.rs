use vstd::prelude::*;
use vstd::set_lib::set_int_range;

verus! {

/// Why no epicycle list was produced.
#[derive(Clone, Copy, Debug, PartialEq, Eq, Structural)]
pub enum PipelineError {
    /// The path has no samples, so it has no spectrum.
    EmptyInput,
    /// No bin's amplitude exceeds the threshold.
    DegenerateSpectrum,
}

/// Tuning of the epicycle selection. Amplitudes are compared through keys
/// that order as the amplitudes do (for a non-negative `f32`, its bit
/// pattern is such a key).
#[derive(Clone, Copy, Debug, PartialEq, Eq, Structural)]
pub struct SpectralConfig {
    /// A bin is kept only if its key is strictly above this one.
    pub min_amplitude_key: u32,
    /// At most this many terms are kept.
    pub max_terms: usize,
}

/// One kept spectral bin: a rotating component of the path.
#[derive(Clone, Copy, Debug, PartialEq, Eq, Structural)]
pub struct Term {
    /// The bin of the transform, in `0..n`.
    pub bin: usize,
    /// Signed harmonic index: rotations per traversal of the path.
    pub frequency: i128,
    /// The key of the bin's amplitude.
    pub amplitude_key: u32,
}

/// The signed harmonic of bin `k` of an `n`-point transform: bins above
/// `n / 2` stand for negative frequencies.
pub open spec fn harmonic(k: int, n: int) -> int {
    if k <= n / 2 {
        k
    } else {
        k - n
    }
}

/// Bin `k` exists and its amplitude is strictly above the threshold.
pub open spec fn passes(keys: Seq<u32>, min_key: u32, k: int) -> bool {
    0 <= k < keys.len() && keys[k] > min_key
}

/// Bin `a` ranks before bin `b`: larger amplitude first, and among equal
/// amplitudes the lower bin first.
pub open spec fn ranks_before(keys: Seq<u32>, a: int, b: int) -> bool {
    keys[a] > keys[b] || (keys[a] == keys[b] && a < b)
}

/// The bins whose amplitude is above the threshold.
pub open spec fn passing_bins(keys: Seq<u32>, min_key: u32) -> Set<int> {
    Set::new(|k: int| passes(keys, min_key, k))
}

/// `r` lists the kept bins: the passing bins in rank order, cut after
/// `max_terms`.
pub open spec fn is_ranking(keys: Seq<u32>, min_key: u32, max_terms: nat, r: Seq<usize>) -> bool {
    &&& r.len() <= max_terms
    &&& forall|i: int| 0 <= i < r.len() ==> passes(keys, min_key, #[trigger] r[i] as int)
    &&& forall|i: int, j: int|
        0 <= i < j < r.len() ==> ranks_before(keys, #[trigger] r[i] as int, #[trigger] r[j] as int)
    &&& forall|k: int|
        passes(keys, min_key, k) && !r.contains(k as usize) ==> {
            &&& r.len() == max_terms
            &&& forall|i: int| 0 <= i < r.len() ==> ranks_before(keys, #[trigger] r[i] as int, k)
        }
}

/// The signed harmonic index of bin `k` of an `n`-point transform.
pub fn signed_frequency(k: usize, n: usize) -> (r: i128)
    requires
        k < n,
    ensures
        r == harmonic(k as int, n as int),
{
    if k <= n / 2 {
        k as i128
    } else {
        k as i128 - n as i128
    }
}

/// Lists the bins whose key is above `min_key`, largest amplitude first
/// (ties in bin order), at most `max_terms` of them.
pub fn rank_bins(keys: &Vec<u32>, min_key: u32, max_terms: usize) -> (r: Vec<usize>)
    ensures
        is_ranking(keys@, min_key, max_terms as nat, r@),
{
    let n = keys.len();
    let mut r: Vec<usize> = Vec::new();
    while r.len() < max_terms
        invariant
            n == keys@.len(),
            r@.len() <= max_terms,
            forall|i: int| 0 <= i < r@.len() ==> passes(keys@, min_key, #[trigger] r@[i] as int),
            forall|i: int, j: int|
                0 <= i < j < r@.len() ==> ranks_before(keys@, #[trigger] r@[i] as int, #[trigger] r@[j] as int),
            forall|k: int|
                passes(keys@, min_key, k) && !r@.contains(k as usize) ==> forall|i: int|
                    0 <= i < r@.len() ==> ranks_before(keys@, #[trigger] r@[i] as int, k),
        ensures
            r@.len() <= max_terms,
            forall|i: int| 0 <= i < r@.len() ==> passes(keys@, min_key, #[trigger] r@[i] as int),
            forall|i: int, j: int|
                0 <= i < j < r@.len() ==> ranks_before(keys@, #[trigger] r@[i] as int, #[trigger] r@[j] as int),
            forall|k: int|
                passes(keys@, min_key, k) && !r@.contains(k as usize) ==> r@.len() == max_terms && forall|i: int|
                    0 <= i < r@.len() ==> ranks_before(keys@, #[trigger] r@[i] as int, k),
        decreases max_terms - r@.len(),
    {
        let has_last = r.len() > 0;
        let last: usize = if has_last { r[r.len() - 1] } else { 0 };
        proof {
            if has_last {
                assert(passes(keys@, min_key, r@[r@.len() - 1] as int));
            }
        }
        let mut found = false;
        let mut best: usize = 0;
        let mut k: usize = 0;
        while k < n
            invariant
                n == keys@.len(),
                k <= n,
                has_last == (r@.len() > 0),
                has_last ==> last == r@.last(),
                has_last ==> last < n,
                found ==> best < n && passes(keys@, min_key, best as int) && (has_last ==> ranks_before(keys@, last as int, best as int)),
                forall|j: int|
                    0 <= j < k && passes(keys@, min_key, j) && (has_last ==> ranks_before(keys@, last as int, j))
                        ==> found && (j == best || ranks_before(keys@, best as int, j)),
            decreases n - k,
        {
            let candidate = keys[k] > min_key && (!has_last || keys[last] > keys[k] || (keys[last] == keys[k] && last < k));
            if candidate && (!found || keys[k] > keys[best] || (keys[k] == keys[best] && k < best)) {
                best = k;
                found = true;
            }
            k = k + 1;
        }
        if !found {
            proof {
                assert forall|j: int| passes(keys@, min_key, j) implies r@.contains(j as usize) by {
                    if !r@.contains(j as usize) && has_last {
                        assert(ranks_before(keys@, r@[r@.len() - 1] as int, j));
                    }
                }
            }
            break;
        }
        proof {
            if r@.contains(best) {
                let i = choose|i: int| 0 <= i < r@.len() && r@[i] == best;
                if i < r@.len() - 1 {
                    assert(ranks_before(keys@, r@[i] as int, r@[r@.len() - 1] as int));
                }
            }
        }
        let ghost prev = r@;
        r.push(best);
        proof {
            assert forall|k: int|
                passes(keys@, min_key, k) && !r@.contains(k as usize) implies forall|i: int|
                    0 <= i < r@.len() ==> ranks_before(keys@, #[trigger] r@[i] as int, k) by {
                assert(!r@.drop_last().contains(k as usize)) by {
                    if r@.drop_last().contains(k as usize) {
                        let i = choose|i: int| 0 <= i < r@.drop_last().len() && r@.drop_last()[i] == k as usize;
                        assert(r@[i] == k as usize);
                    }
                }
                assert(r@.drop_last() =~= prev);
                assert(r@.contains(best)) by {
                    assert(r@[prev.len() as int] == best);
                }
                assert(k != best);
            }
        }
    }
    r
}

/// The bins of a list of terms, in order.
pub open spec fn bins_of(t: Seq<Term>) -> Seq<usize> {
    Seq::new(t.len(), |i: int| t[i].bin)
}

/// Each term carries the signed harmonic and the amplitude key of its bin.
pub open spec fn terms_describe_bins(keys: Seq<u32>, t: Seq<Term>) -> bool {
    forall|i: int|
        0 <= i < t.len() ==> {
            &&& (#[trigger] t[i]).frequency == harmonic(t[i].bin as int, keys.len() as int)
            &&& t[i].amplitude_key == keys[t[i].bin as int]
        }
}

/// Whether some bin's key is above `min_key`.
pub fn any_passing(keys: &Vec<u32>, min_key: u32) -> (r: bool)
    ensures
        r == exists|k: int| passes(keys@, min_key, k),
{
    let mut k: usize = 0;
    while k < keys.len()
        invariant
            k <= keys@.len(),
            forall|j: int| 0 <= j < k ==> !passes(keys@, min_key, j),
        decreases keys@.len() - k,
    {
        if keys[k] > min_key {
            assert(passes(keys@, min_key, k as int));
            return true;
        }
        k = k + 1;
    }
    false
}

/// Turns the amplitude keys of an `n`-point spectrum, bin by bin, into the
/// ranked, filtered and truncated list of epicycle terms.
pub fn epicycle_terms(keys: &Vec<u32>, config: SpectralConfig) -> (r: Result<Vec<Term>, PipelineError>)
    ensures
        (r == Err::<Vec<Term>, PipelineError>(PipelineError::EmptyInput)) == (keys@.len() == 0),
        (r == Err::<Vec<Term>, PipelineError>(PipelineError::DegenerateSpectrum)) == (keys@.len() > 0
            && forall|k: int| !passes(keys@, config.min_amplitude_key, k)),
        r is Ok ==> is_ranking(keys@, config.min_amplitude_key, config.max_terms as nat, bins_of(r->Ok_0@)),
        r is Ok ==> terms_describe_bins(keys@, r->Ok_0@),
{
    let n = keys.len();
    if n == 0 {
        return Err(PipelineError::EmptyInput);
    }
    if !any_passing(keys, config.min_amplitude_key) {
        return Err(PipelineError::DegenerateSpectrum);
    }
    let bins = rank_bins(keys, config.min_amplitude_key, config.max_terms);
    let mut terms: Vec<Term> = Vec::new();
    let mut i: usize = 0;
    while i < bins.len()
        invariant
            n == keys@.len(),
            i <= bins@.len(),
            terms@.len() == i,
            is_ranking(keys@, config.min_amplitude_key, config.max_terms as nat, bins@),
            forall|j: int| 0 <= j < i ==> (#[trigger] terms@[j]).bin == bins@[j],
            terms_describe_bins(keys@, terms@),
        decreases bins@.len() - i,
    {
        let bin = bins[i];
        assert(passes(keys@, config.min_amplitude_key, bins@[i as int] as int));
        terms.push(Term { bin, frequency: signed_frequency(bin, n), amplitude_key: keys[bin] });
        i = i + 1;
    }
    assert(bins_of(terms@) =~= bins@);
    Ok(terms)
}

/// A ranking keeps no more terms than the limit and no more than the bins
/// that pass the threshold, and lists them by amplitude, largest first.
pub proof fn lemma_ranking_bounds(keys: Seq<u32>, min_key: u32, max_terms: nat, r: Seq<usize>)
    requires
        is_ranking(keys, min_key, max_terms, r),
    ensures
        passing_bins(keys, min_key).finite(),
        r.len() <= max_terms,
        r.len() <= passing_bins(keys, min_key).len(),
        forall|i: int, j: int| 0 <= i < j < r.len() ==> keys[r[i] as int] >= keys[r[j] as int],
{
    let ri = Seq::new(r.len(), |i: int| r[i] as int);
    let all = set_int_range(0, keys.len() as int);
    let pass = passing_bins(keys, min_key);
    vstd::set_lib::lemma_int_range(0, keys.len() as int);
    vstd::set_lib::lemma_len_subset(pass, all);
    assert forall|i: int, j: int| 0 <= i < ri.len() && 0 <= j < ri.len() && i != j implies ri[i] != ri[j] by {
        if i < j {
            assert(ranks_before(keys, r[i] as int, r[j] as int));
        } else {
            assert(ranks_before(keys, r[j] as int, r[i] as int));
        }
    }
    ri.unique_seq_to_set();
    assert forall|k: int| ri.to_set().contains(k) implies pass.contains(k) by {
        let i = choose|i: int| 0 <= i < ri.len() && ri[i] == k;
        assert(passes(keys, min_key, r[i] as int));
    }
    vstd::set_lib::lemma_len_subset(ri.to_set(), pass);
    assert forall|i: int, j: int| 0 <= i < j < r.len() implies keys[r[i] as int] >= keys[r[j] as int] by {
        assert(ranks_before(keys, r[i] as int, r[j] as int));
    }
}

proof fn lemma_rankings_agree_before(
    keys: Seq<u32>,
    min_key: u32,
    max_terms: nat,
    r1: Seq<usize>,
    r2: Seq<usize>,
    i: int,
)
    requires
        is_ranking(keys, min_key, max_terms, r1),
        is_ranking(keys, min_key, max_terms, r2),
        0 <= i <= r1.len(),
        i <= r2.len(),
    ensures
        forall|j: int| 0 <= j < i ==> r1[j] == r2[j],
    decreases i,
{
    if i > 0 {
        let k = i - 1;
        lemma_rankings_agree_before(keys, min_key, max_terms, r1, r2, k);
        if r1[k] != r2[k] {
            let a = r1[k] as int;
            let b = r2[k] as int;
            if ranks_before(keys, a, b) {
                lemma_not_listed_after(keys, min_key, max_terms, r1, r2, k);
            } else {
                lemma_not_listed_after(keys, min_key, max_terms, r2, r1, k);
            }
        }
    }
}

proof fn lemma_not_listed_after(
    keys: Seq<u32>,
    min_key: u32,
    max_terms: nat,
    r1: Seq<usize>,
    r2: Seq<usize>,
    k: int,
)
    requires
        is_ranking(keys, min_key, max_terms, r1),
        is_ranking(keys, min_key, max_terms, r2),
        0 <= k < r1.len(),
        k < r2.len(),
        forall|j: int| 0 <= j < k ==> r1[j] == r2[j],
        r1[k] != r2[k],
    ensures
        !ranks_before(keys, r1[k] as int, r2[k] as int),
{
    let a = r1[k];
    assert(passes(keys, min_key, a as int));
    if !ranks_before(keys, r1[k] as int, r2[k] as int) {
    } else if r2.contains(a) {
        let m = choose|m: int| 0 <= m < r2.len() && r2[m] == a;
        if m < k {
            assert(r1[m] == a);
            assert(ranks_before(keys, r1[m] as int, r1[k] as int));
        } else if m > k {
            assert(ranks_before(keys, r2[k] as int, r2[m] as int));
        }
    } else {
        assert(ranks_before(keys, r2[k] as int, a as int));
    }
}

/// The ranking contract admits one list only: for given keys, threshold
/// and limit, any two lists that meet it are equal.
pub proof fn lemma_ranking_unique(
    keys: Seq<u32>,
    min_key: u32,
    max_terms: nat,
    r1: Seq<usize>,
    r2: Seq<usize>,
)
    requires
        is_ranking(keys, min_key, max_terms, r1),
        is_ranking(keys, min_key, max_terms, r2),
    ensures
        r1 == r2,
{
    if r1.len() <= r2.len() {
        lemma_rankings_agree_before(keys, min_key, max_terms, r1, r2, r1.len() as int);
        lemma_shorter_is_whole(keys, min_key, max_terms, r1, r2);
    } else {
        lemma_rankings_agree_before(keys, min_key, max_terms, r2, r1, r2.len() as int);
        lemma_shorter_is_whole(keys, min_key, max_terms, r2, r1);
    }
    assert(r1 =~= r2);
}

proof fn lemma_shorter_is_whole(
    keys: Seq<u32>,
    min_key: u32,
    max_terms: nat,
    r1: Seq<usize>,
    r2: Seq<usize>,
)
    requires
        is_ranking(keys, min_key, max_terms, r1),
        is_ranking(keys, min_key, max_terms, r2),
        r1.len() <= r2.len(),
        forall|j: int| 0 <= j < r1.len() ==> r1[j] == r2[j],
    ensures
        r1.len() == r2.len(),
{
    if r1.len() < r2.len() {
        let n = r1.len() as int;
        let b = r2[n];
        assert(passes(keys, min_key, b as int));
        if r1.contains(b) {
            let m = choose|m: int| 0 <= m < r1.len() && r1[m] == b;
            assert(r2[m] == b);
            assert(ranks_before(keys, r2[m] as int, r2[n] as int));
        }
    }
}

/// Every returned term's amplitude is above the threshold, and a bin whose
/// amplitude is above it is missing only when the list is full of terms
/// at least as large.
pub proof fn lemma_terms_filter(keys: Seq<u32>, config: SpectralConfig, t: Seq<Term>)
    requires
        keys.len() <= usize::MAX,
        is_ranking(keys, config.min_amplitude_key, config.max_terms as nat, bins_of(t)),
        terms_describe_bins(keys, t),
    ensures
        forall|i: int| 0 <= i < t.len() ==> (#[trigger] t[i]).amplitude_key > config.min_amplitude_key,
        forall|k: int|
            passes(keys, config.min_amplitude_key, k) ==> (exists|i: int|
                0 <= i < t.len() && (#[trigger] t[i]).bin == k) || (t.len() == config.max_terms
                && forall|i: int| 0 <= i < t.len() ==> (#[trigger] t[i]).amplitude_key >= keys[k]),
{
    let b = bins_of(t);
    assert forall|i: int| 0 <= i < t.len() implies (#[trigger] t[i]).amplitude_key > config.min_amplitude_key by {
        assert(passes(keys, config.min_amplitude_key, b[i] as int));
    }
    assert forall|k: int| passes(keys, config.min_amplitude_key, k) implies (exists|i: int|
        0 <= i < t.len() && (#[trigger] t[i]).bin == k) || (t.len() == config.max_terms
        && forall|i: int| 0 <= i < t.len() ==> (#[trigger] t[i]).amplitude_key >= keys[k]) by {
        if b.contains(k as usize) {
            let i = choose|i: int| 0 <= i < b.len() && b[i] == k as usize;
            assert(t[i].bin == b[i]);
        } else {
            assert forall|i: int| 0 <= i < t.len() implies (#[trigger] t[i]).amplitude_key >= keys[k] by {
                assert(ranks_before(keys, b[i] as int, k));
            }
        }
    }
}

/// At most `max_terms` terms are returned and no more than the bins above
/// the threshold, listed by amplitude, largest first.
pub proof fn lemma_terms_truncation(keys: Seq<u32>, config: SpectralConfig, t: Seq<Term>)
    requires
        is_ranking(keys, config.min_amplitude_key, config.max_terms as nat, bins_of(t)),
        terms_describe_bins(keys, t),
    ensures
        passing_bins(keys, config.min_amplitude_key).finite(),
        t.len() <= config.max_terms,
        t.len() <= passing_bins(keys, config.min_amplitude_key).len(),
        forall|i: int, j: int| 0 <= i < j < t.len() ==> t[i].amplitude_key >= t[j].amplitude_key,
{
    let b = bins_of(t);
    lemma_ranking_bounds(keys, config.min_amplitude_key, config.max_terms as nat, b);
    assert forall|i: int, j: int| 0 <= i < j < t.len() implies t[i].amplitude_key >= t[j].amplitude_key by {
        assert(keys[b[i] as int] >= keys[b[j] as int]);
    }
}

} // verus!
