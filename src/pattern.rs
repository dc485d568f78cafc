//! The pattern of permitted slot lengths and the tables derived from it.
use vstd::prelude::*;

verus! {

/// Largest slot length a pattern may hold.
pub const MTU: usize = 1500;

/// Length of the outer IPv4 header that wraps every frame.
pub const IP_HEADER_LEN: usize = 20;

/// Offset of the source address inside an IPv4 header.
pub const IP_SRC_ADDR_OFFSET: usize = 12;

/// Length of an IPv4 address.
pub const IP_ADDR_LEN: usize = 4;

/// Version field of the outer header.
pub const IP_VERSION: u8 = 4;

/// The pattern the middlebox ships with: three slots, the largest leaving
/// room for a VPN's overhead under a 1514-byte Ethernet frame.
pub fn default_pattern() -> (r: Vec<usize>)
    ensures
        r@ == seq![467usize, 933, 1400],
        valid_pattern(r@),
{
    let r: Vec<usize> = vec![467, 933, 1400];
    assert(r@ =~= seq![467usize, 933, 1400]);
    r
}

/// A usable pattern: non-empty, each slot in `1..=MTU`, non-decreasing.
pub open spec fn valid_pattern(p: Seq<usize>) -> bool {
    &&& 0 < p.len()
    &&& forall|i: int| 0 <= i < p.len() ==> 0 < #[trigger] p[i] <= MTU
    &&& forall|i: int, j: int| 0 <= i <= j < p.len() ==> p[i] <= p[j]
}

/// First index of the run of equal slots that holds slot `i`.
pub open spec fn run_start(p: Seq<usize>, i: int) -> int
    decreases i,
{
    if 0 < i < p.len() && p[i - 1] == p[i] {
        run_start(p, i - 1)
    } else {
        i
    }
}

/// One past the last index of the run of equal slots that holds slot `i`.
pub open spec fn run_end(p: Seq<usize>, i: int) -> int
    decreases p.len() - i,
{
    if 0 <= i && i + 1 < p.len() && p[i + 1] == p[i] {
        run_end(p, i + 1)
    } else {
        i + 1
    }
}

/// `x` comes before `y` when sorted by slot length, ties kept in index order.
pub open spec fn index_before(p: Seq<usize>, x: usize, y: usize) -> bool {
    p[x as int] < p[y as int] || (p[x as int] == p[y as int] && x < y)
}

/// A push-state vector for `p`: one entry per slot, each entry's cursor
/// inside the slot's run and its second field the run's end.
pub open spec fn push_state_valid(p: Seq<usize>, s: Seq<(usize, usize)>) -> bool {
    &&& s.len() == p.len()
    &&& forall|i: int|
        0 <= i < p.len() ==> {
            &&& run_start(p, i) <= (#[trigger] s[i]).0 < run_end(p, i)
            &&& s[i].1 == run_end(p, i)
        }
}

pub proof fn lemma_run_bounds(p: Seq<usize>, i: int)
    requires
        0 <= i < p.len(),
    ensures
        0 <= run_start(p, i) <= i < run_end(p, i) <= p.len(),
    decreases p.len() - i,
{
    lemma_run_start_bounds(p, i);
    if i + 1 < p.len() && p[i + 1] == p[i] {
        lemma_run_bounds(p, i + 1);
    }
}

proof fn lemma_run_start_bounds(p: Seq<usize>, i: int)
    requires
        0 <= i < p.len(),
    ensures
        0 <= run_start(p, i) <= i,
    decreases i,
{
    if 0 < i && p[i - 1] == p[i] {
        lemma_run_start_bounds(p, i - 1);
    }
}

/// Inside a stretch of equal slots that begins a run, every slot's run begins there.
proof fn lemma_run_start_in_stretch(p: Seq<usize>, a: int, j: int)
    requires
        0 <= a <= j < p.len(),
        run_start(p, a) == a,
        forall|k: int| a <= k < j ==> #[trigger] p[k] == p[k + 1],
    ensures
        run_start(p, j) == a,
    decreases j - a,
{
    if j > a {
        assert(p[j - 1] == p[j]);
        lemma_run_start_in_stretch(p, a, j - 1);
    }
}

/// Inside a stretch of equal slots that ends a run at `e`, every slot's run ends at `e + 1`.
proof fn lemma_run_end_in_stretch(p: Seq<usize>, j: int, e: int)
    requires
        0 <= j <= e < p.len(),
        e + 1 == p.len() || p[e] != p[e + 1],
        forall|k: int| j <= k < e ==> #[trigger] p[k] == p[k + 1],
    ensures
        run_end(p, j) == e + 1,
    decreases e - j,
{
    if j < e {
        assert(p[j] == p[j + 1]);
        lemma_run_end_in_stretch(p, j + 1, e);
    }
}

/// The push-state vector of `p`: entry `i` is `(run_start, run_end)` of slot `i`.
pub open spec fn push_state_of(p: Seq<usize>) -> Seq<(usize, usize)> {
    Seq::new(p.len(), |i: int| (run_start(p, i) as usize, run_end(p, i) as usize))
}

/// The first slot, from `i` on, whose length is at least `len`; `p.len()` if none.
pub open spec fn first_fit_from(p: Seq<usize>, len: int, i: int) -> int
    decreases p.len() - i,
{
    if 0 <= i < p.len() {
        if len <= p[i] {
            i
        } else {
            first_fit_from(p, len, i + 1)
        }
    } else {
        p.len() as int
    }
}

/// The smallest slot that holds a frame of `len` bytes; `p.len()` if none does.
pub open spec fn first_fit(p: Seq<usize>, len: int) -> int {
    first_fit_from(p, len, 0)
}

/// Where the run that ends just before entry `idx` of a push-state vector ends.
pub open spec fn group_base(s: Seq<(usize, usize)>, idx: int) -> int {
    if idx == 0 {
        0
    } else {
        s[idx - 1].1 as int
    }
}

/// The push-state vector after the cursor of entry `idx` moved one queue on,
/// wrapping within its group. Entries that do not describe a group are left alone.
pub open spec fn advanced(s: Seq<(usize, usize)>, idx: int) -> Seq<(usize, usize)> {
    if 0 <= idx < s.len() && group_base(s, idx) <= s[idx].0 < s[idx].1 {
        let next = if s[idx].0 + 1 < s[idx].1 {
            (s[idx].0 + 1) as usize
        } else {
            group_base(s, idx) as usize
        };
        s.update(idx, (next, s[idx].1))
    } else {
        s
    }
}

/// The push-state vector after `j` advances of entry `idx`.
pub open spec fn advanced_times(s: Seq<(usize, usize)>, idx: int, j: nat) -> Seq<(usize, usize)>
    decreases j,
{
    if j == 0 {
        s
    } else {
        advanced(advanced_times(s, idx, (j - 1) as nat), idx)
    }
}

/// Every slot of a run has the run's length.
pub proof fn lemma_run_values(p: Seq<usize>, i: int, t: int)
    requires
        0 <= i < p.len(),
        run_start(p, i) <= t < run_end(p, i),
    ensures
        p[t] == p[i],
{
    lemma_run_bounds(p, i);
    if t > i {
        lemma_run_values_up(p, i, t);
    } else if t < i {
        lemma_run_values_down(p, i, t);
    }
}

proof fn lemma_run_values_up(p: Seq<usize>, i: int, t: int)
    requires
        0 <= i < t < run_end(p, i),
        t <= p.len(),
    ensures
        p[t] == p[i],
    decreases t - i,
{
    if i + 1 < p.len() && p[i + 1] == p[i] {
        if t > i + 1 {
            lemma_run_values_up(p, i + 1, t);
        }
    }
}

proof fn lemma_run_values_down(p: Seq<usize>, i: int, t: int)
    requires
        run_start(p, i) <= t < i < p.len(),
        0 <= t,
    ensures
        p[t] == p[i],
    decreases i - t,
{
    if 0 < i && p[i - 1] == p[i] {
        if t < i - 1 {
            lemma_run_values_down(p, i - 1, t);
        }
    }
}

/// The fitting slot is the first index of its run, and every earlier slot is too short.
proof fn lemma_first_fit_from(p: Seq<usize>, len: int, i: int)
    requires
        0 <= i <= p.len(),
    ensures
        i <= first_fit_from(p, len, i) <= p.len(),
        forall|j: int| i <= j < first_fit_from(p, len, i) ==> #[trigger] p[j] < len,
        first_fit_from(p, len, i) < p.len() ==> len <= p[first_fit_from(p, len, i)],
    decreases p.len() - i,
{
    if i < p.len() && len > p[i] {
        lemma_first_fit_from(p, len, i + 1);
    }
}

/// The slot that `first_fit` picks begins its run.
pub proof fn lemma_first_fit_starts_run(p: Seq<usize>, len: int)
    ensures
        0 <= first_fit(p, len) <= p.len(),
        forall|j: int| 0 <= j < first_fit(p, len) ==> #[trigger] p[j] < len,
        first_fit(p, len) < p.len() ==> len <= p[first_fit(p, len)] && run_start(
            p,
            first_fit(p, len),
        ) == first_fit(p, len),
{
    lemma_first_fit_from(p, len, 0);
    let a = first_fit(p, len);
    if 0 < a < p.len() {
        assert(p[a - 1] < len);
    }
}

/// A fresh push-state vector is valid.
proof fn lemma_push_state_of_valid(p: Seq<usize>)
    requires
        p.len() <= usize::MAX,
    ensures
        push_state_valid(p, push_state_of(p)),
{
    assert forall|i: int| 0 <= i < p.len() implies {
        &&& run_start(p, i) <= (#[trigger] push_state_of(p)[i]).0 < run_end(p, i)
        &&& push_state_of(p)[i].1 == run_end(p, i)
    } by {
        lemma_run_bounds(p, i);
    }
}

/// Advancing the entry of a run's first slot keeps the vector valid, and the
/// cursor moves one queue on within the run, wrapping to the run's start.
pub proof fn lemma_advance_valid(p: Seq<usize>, s: Seq<(usize, usize)>, a: int)
    requires
        push_state_valid(p, s),
        0 <= a < p.len(),
        run_start(p, a) == a,
    ensures
        push_state_valid(p, advanced(s, a)),
        advanced(s, a)[a].0 == if s[a].0 + 1 < run_end(p, a) {
            s[a].0 + 1
        } else {
            a
        },
        forall|i: int| 0 <= i < p.len() && i != a ==> advanced(s, a)[i] == #[trigger] s[i],
{
    lemma_run_bounds(p, a);
    if a > 0 {
        lemma_run_start_bounds(p, a - 1);
        assert(s[a - 1].1 == run_end(p, a - 1));
        assert(p[a] != p[a - 1]);
        assert(run_end(p, a - 1) == a);
    }
    assert(group_base(s, a) == a);
    let t = advanced(s, a);
    assert forall|i: int| 0 <= i < p.len() implies {
        &&& run_start(p, i) <= (#[trigger] t[i]).0 < run_end(p, i)
        &&& t[i].1 == run_end(p, i)
    } by {
        lemma_run_bounds(p, i);
    }
}

/// Repeated pushes into a run of `k` equal slots starting at `a` visit its
/// queues in cyclic order: after `j` advances the cursor of a fresh
/// push-state vector points at queue `a + j mod k`.
pub proof fn lemma_state_group_fan_out(p: Seq<usize>, a: int, j: nat)
    requires
        0 <= a < p.len() <= usize::MAX,
        run_start(p, a) == a,
    ensures
        push_state_valid(p, advanced_times(push_state_of(p), a, j)),
        advanced_times(push_state_of(p), a, j)[a].0 == a + (j as int) % (run_end(p, a) - a),
    decreases j,
{
    lemma_run_bounds(p, a);
    let k = run_end(p, a) - a;
    if j == 0 {
        lemma_push_state_of_valid(p);
        assert(push_state_of(p)[a].0 == a);
    } else {
        lemma_state_group_fan_out(p, a, (j - 1) as nat);
        let prev = advanced_times(push_state_of(p), a, (j - 1) as nat);
        lemma_advance_valid(p, prev, a);
        assert(advanced_times(push_state_of(p), a, j) == advanced(prev, a));
        let m = (j - 1) as int;
        assert(0 <= m % k < k) by (nonlinear_arith)
            requires
                k > 0,
                m >= 0,
        ;
        if m % k + 1 < k {
            assert((j as int) % k == m % k + 1) by (nonlinear_arith)
                requires
                    k > 0,
                    m >= 0,
                    j as int == m + 1,
                    m % k + 1 < k,
            ;
        } else {
            assert((j as int) % k == 0) by (nonlinear_arith)
                requires
                    k > 0,
                    m >= 0,
                    j as int == m + 1,
                    m % k + 1 == k,
            ;
        }
    }
}

/// Moves the cursor of entry `idx` one queue on within its group, wrapping to
/// the group's first queue. An entry that does not describe a group is left alone.
pub fn advance_push_state(psv: &mut Vec<(usize, usize)>, idx: usize)
    ensures
        final(psv)@ == advanced(old(psv)@, idx as int),
{
    if idx < psv.len() {
        let base: usize = if idx == 0 {
            0
        } else {
            psv[idx - 1].1
        };
        let (next_queue, end) = psv[idx];
        if base <= next_queue && next_queue < end {
            let next = if next_queue + 1 < end {
                next_queue + 1
            } else {
                base
            };
            psv.set(idx, (next, end));
        }
    }
}

/// Indices of `pattern` sorted by slot length; equal lengths keep their index order.
pub fn get_sorted_indices(pattern: &[usize]) -> (r: Vec<usize>)
    ensures
        r@.len() == pattern@.len(),
        forall|k: int| 0 <= k < r@.len() ==> #[trigger] r@[k] < pattern@.len(),
        forall|a: int, b: int| 0 <= a < b < r@.len() ==> index_before(pattern@, r@[a], r@[b]),
{
    let n = pattern.len();
    let mut r: Vec<usize> = Vec::new();
    let mut i: usize = 0;
    while i < n
        invariant
            i <= n == pattern@.len(),
            r@.len() == i,
            forall|k: int| 0 <= k < r@.len() ==> #[trigger] r@[k] < i,
            forall|a: int, b: int| 0 <= a < b < r@.len() ==> index_before(pattern@, r@[a], r@[b]),
        decreases n - i,
    {
        let mut pos: usize = 0;
        while pos < r.len() && pattern[r[pos]] <= pattern[i]
            invariant
                i < n == pattern@.len(),
                r@.len() == i,
                pos <= r@.len(),
                forall|k: int| 0 <= k < r@.len() ==> #[trigger] r@[k] < i,
                forall|k: int| 0 <= k < pos ==> pattern@[#[trigger] r@[k] as int] <= pattern@[i as int],
            decreases r@.len() - pos,
        {
            pos = pos + 1;
        }
        proof {
            assert forall|k: int| pos <= k < r@.len() implies pattern@[i as int] < pattern@[
                #[trigger] r@[k] as int] by {
                if k > pos {
                    assert(index_before(pattern@, r@[pos as int], r@[k]));
                }
            }
        }
        let ghost old_r = r@;
        r.insert(pos, i);
        proof {
            assert forall|k: int| 0 <= k < r@.len() implies #[trigger] r@[k] < i + 1 by {
                if k < pos {
                    assert(r@[k] == old_r[k]);
                } else if k > pos {
                    assert(r@[k] == old_r[k - 1]);
                }
            }
            assert forall|a: int, b: int| 0 <= a < b < r@.len() implies index_before(
                pattern@,
                r@[a],
                r@[b],
            ) by {
                if b < pos {
                    assert(r@[a] == old_r[a] && r@[b] == old_r[b]);
                } else if b == pos {
                    assert(r@[a] == old_r[a]);
                } else if a < pos {
                    assert(r@[a] == old_r[a] && r@[b] == old_r[b - 1]);
                } else if a == pos {
                    assert(r@[b] == old_r[b - 1]);
                } else {
                    assert(r@[a] == old_r[a - 1] && r@[b] == old_r[b - 1]);
                }
            }
        }
        i = i + 1;
    }
    r
}

/// The push-state vector of `pattern`: entry `i` is `(a, b)` where `[a, b)`
/// is the run of equal slots that holds `i`.
pub fn get_push_state_vector(pattern: &[usize]) -> (r: Vec<(usize, usize)>)
    ensures
        r@ == push_state_of(pattern@),
{
    let n = pattern.len();
    let mut state: Vec<(usize, usize)> = Vec::new();
    let mut count: usize = 0;
    let mut previous_state: usize = 0;
    let mut i: usize = 0;
    while i < n
        invariant
            i <= n == pattern@.len(),
            previous_state + count == i,
            i == n ==> previous_state == n,
            state@.len() == previous_state,
            previous_state < n ==> run_start(pattern@, previous_state as int) == previous_state,
            forall|k: int|
                previous_state <= k < i ==> #[trigger] pattern@[k] == pattern@[k + 1],
            forall|j: int|
                0 <= j < previous_state ==> (#[trigger] state@[j]).0 == run_start(pattern@, j)
                    && state@[j].1 == run_end(pattern@, j),
        decreases n - i,
    {
        if i + 1 < n && pattern[i] == pattern[i + 1] {
            count = count + 1;
        } else {
            let mut k: usize = 0;
            while k < count + 1
                invariant
                    i < n == pattern@.len(),
                    previous_state + count == i,
                    k <= count + 1,
                    state@.len() == previous_state + k,
                    forall|j: int|
                        0 <= j < previous_state ==> (#[trigger] state@[j]).0 == run_start(
                            pattern@,
                            j,
                        ) && state@[j].1 == run_end(pattern@, j),
                    forall|j: int|
                        previous_state <= j < previous_state + k ==> #[trigger] state@[j] == (
                        previous_state,
                        (i + 1) as usize,
                    ),
                decreases count + 1 - k,
            {
                state.push((previous_state, i + 1));
                k = k + 1;
            }
            proof {
                assert forall|j: int| 0 <= j < i + 1 implies (#[trigger] state@[j]).0 == run_start(
                    pattern@,
                    j,
                ) && state@[j].1 == run_end(pattern@, j) by {
                    if j >= previous_state {
                        lemma_run_start_in_stretch(pattern@, previous_state as int, j);
                        lemma_run_end_in_stretch(pattern@, j, i as int);
                    }
                }
                if i + 1 < n {
                    assert(pattern@[i as int] != pattern@[i + 1]);
                }
            }
            previous_state = i + 1;
            count = 0;
        }
        i = i + 1;
    }
    assert forall|j: int| 0 <= j < n implies #[trigger] state@[j] == push_state_of(pattern@)[j] by {
        lemma_run_bounds(pattern@, j);
    }
    assert(state@ =~= push_state_of(pattern@));
    state
}

} // verus!
