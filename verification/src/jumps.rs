//! Bracket matching: a single left-to-right scan of the instruction
//! sequence produces a bidirectional position-to-position mapping
//! between matched loop brackets, or fails on the first unmatched
//! bracket. Matching is stated over the net bracket depth of prefixes.

use std::collections::HashMap;
use vstd::prelude::*;

verus! {

broadcast use vstd::std_specs::hash::group_hash_axioms;

/// Net bracket depth of the first `n` symbols: opening brackets count
/// +1, closing brackets -1, everything else 0.
pub open spec fn depth(s: Seq<char>, n: int) -> int
    recommends
        n <= s.len(),
    decreases n,
{
    if n <= 0 {
        0
    } else {
        depth(s, n - 1) + if s[n - 1] == '[' {
            1int
        } else if s[n - 1] == ']' {
            -1int
        } else {
            0int
        }
    }
}

/// No prefix of the first `n` symbols closes more brackets than were
/// opened before it.
pub open spec fn closes_covered(s: Seq<char>, n: int) -> bool {
    forall|j: int| 0 <= j <= n ==> depth(s, j) >= 0
}

/// Every closing bracket has an earlier open, and no opening bracket is
/// left unclosed: the program's loops nest properly.
pub open spec fn well_formed(s: Seq<char>) -> bool {
    closes_covered(s, s.len() as int) && depth(s, s.len() as int) == 0
}

/// The closing bracket at `q` matches the opening bracket at `p`: the
/// depth stays above the level of `p` strictly between them and returns
/// to it immediately after `q`.
pub open spec fn is_match(s: Seq<char>, p: int, q: int) -> bool {
    &&& 0 <= p < q < s.len()
    &&& s[p] == '['
    &&& s[q] == ']'
    &&& forall|j: int| p < j <= q ==> depth(s, j) > depth(s, p)
    &&& depth(s, q + 1) == depth(s, p)
}

/// An opening bracket has at most one matching close.
pub proof fn lemma_match_unique_close(s: Seq<char>, p: int, q1: int, q2: int)
    requires
        is_match(s, p, q1),
        is_match(s, p, q2),
    ensures
        q1 == q2,
{
    if q1 < q2 {
        assert(depth(s, q1 + 1) > depth(s, p));
    } else if q2 < q1 {
        assert(depth(s, q2 + 1) > depth(s, p));
    }
}

/// A closing bracket has at most one matching open.
pub proof fn lemma_match_unique_open(s: Seq<char>, p1: int, p2: int, q: int)
    requires
        is_match(s, p1, q),
        is_match(s, p2, q),
    ensures
        p1 == p2,
{
    if p1 < p2 {
        assert(depth(s, p2) > depth(s, p1));
    } else if p2 < p1 {
        assert(depth(s, p1) > depth(s, p2));
    }
}

/// The position of the closing bracket matching the open at `p`.
pub open spec fn match_close(s: Seq<char>, p: int) -> int {
    choose|q: int| is_match(s, p, q)
}

/// The position of the opening bracket matching the close at `q`.
pub open spec fn match_open(s: Seq<char>, q: int) -> int {
    choose|p: int| is_match(s, p, q)
}

/// The two fatal errors of jump-table construction.
#[derive(Clone, Copy, Debug, PartialEq, Eq, Structural)]
pub enum JumpsError {
    /// A closing bracket with no opening bracket left to match it; the
    /// payload is its position.
    UnmatchedClose(usize),
    /// At least one opening bracket remains unmatched after the scan.
    UnmatchedOpen,
}

/// Jumps maps the position of a bracket to the position of its match.
pub struct Jumps {
    forward: HashMap<usize, usize>,
    backward: HashMap<usize, usize>,
}

impl Jumps {
    /// The open-to-close mapping.
    pub closed spec fn fwd(&self) -> Map<usize, usize> {
        self.forward@
    }

    /// The close-to-open mapping.
    pub closed spec fn bwd(&self) -> Map<usize, usize> {
        self.backward@
    }

    /// The table is exactly the bracket matching of `s`: each entry
    /// links an opening bracket to the close that matches it, the two
    /// mappings are mutual inverses, and every bracket position of the
    /// program is covered.
    pub open spec fn table_for(&self, s: Seq<char>) -> bool {
        &&& forall|p: usize| #[trigger]
            self.fwd().contains_key(p) ==> is_match(s, p as int, self.fwd()[p] as int)
        &&& forall|q: usize| #[trigger]
            self.bwd().contains_key(q) ==> is_match(s, self.bwd()[q] as int, q as int)
        &&& forall|p: usize| #[trigger]
            self.fwd().contains_key(p) ==> self.bwd().contains_key(self.fwd()[p])
                && self.bwd()[self.fwd()[p]] == p
        &&& forall|q: usize| #[trigger]
            self.bwd().contains_key(q) ==> self.fwd().contains_key(self.bwd()[q])
                && self.fwd()[self.bwd()[q]] == q
        &&& forall|p: int| 0 <= p < s.len() && s[p] == '[' ==> self.fwd().contains_key(p as usize)
        &&& forall|q: int| 0 <= q < s.len() && s[q] == ']' ==> self.bwd().contains_key(q as usize)
    }

    /// Create an empty table.
    pub fn new() -> (j: Jumps)
        ensures
            j.fwd() == Map::<usize, usize>::empty(),
            j.bwd() == Map::<usize, usize>::empty(),
    {
        Jumps { forward: HashMap::new(), backward: HashMap::new() }
    }

    /// Find the matching closing bracket, or fail if none is recorded.
    pub fn right(&self, a: usize) -> (r: Result<usize, ()>)
        ensures
            match r {
                Ok(v) => self.fwd().contains_key(a) && v == self.fwd()[a],
                Err(_) => !self.fwd().contains_key(a),
            },
    {
        match self.forward.get(&a) {
            Some(v) => Ok(*v),
            None => Err(()),
        }
    }

    /// Find the matching opening bracket, or fail if none is recorded.
    pub fn left(&self, a: usize) -> (r: Result<usize, ()>)
        ensures
            match r {
                Ok(v) => self.bwd().contains_key(a) && v == self.bwd()[a],
                Err(_) => !self.bwd().contains_key(a),
            },
    {
        match self.backward.get(&a) {
            Some(v) => Ok(*v),
            None => Err(()),
        }
    }
}

/// Law: the two mappings of a completed table are exact inverses on
/// every bracket position they cover.
pub proof fn lemma_table_inverse(j: &Jumps, s: Seq<char>, x: usize)
    requires
        j.table_for(s),
    ensures
        j.fwd().contains_key(x) ==> j.bwd().contains_key(j.fwd()[x]) && j.bwd()[j.fwd()[x]] == x,
        j.bwd().contains_key(x) ==> j.fwd().contains_key(j.bwd()[x]) && j.fwd()[j.bwd()[x]] == x,
{
}

/// What a failed construction reports: an `UnmatchedClose` carries the
/// position of the first closing bracket with nothing left to match it
/// (every earlier prefix still had its closes covered), and an
/// `UnmatchedOpen` says the whole scan kept its closes covered but
/// opening brackets remain open at the end.
pub open spec fn build_failure(s: Seq<char>, e: JumpsError) -> bool {
    match e {
        JumpsError::UnmatchedClose(q) => {
            &&& (q as int) < s.len()
            &&& s[q as int] == ']'
            &&& closes_covered(s, q as int)
            &&& depth(s, q as int + 1) < 0
        },
        JumpsError::UnmatchedOpen => {
            &&& closes_covered(s, s.len() as int)
            &&& depth(s, s.len() as int) > 0
        },
    }
}

/// Precalculate the positions of matching brackets: on success,
/// `fwd()` holds the position of the closing bracket matching each
/// opening bracket, and `bwd()` is its inverse. Construction fails on
/// the first closing bracket with nothing left to match it, or when
/// opening brackets remain unmatched after the scan; a malformed
/// program never yields a table.
pub fn calculate_jumps(program: &str) -> (r: Result<Jumps, JumpsError>)
    ensures
        (r is Ok) <==> well_formed(program@),
        match r {
            Ok(j) => j.table_for(program@),
            Err(e) => build_failure(program@, e),
        },
{
    let ghost s = program@;
    let n = program.unicode_len();
    let mut open_positions: Vec<usize> = Vec::new();
    let mut forward: HashMap<usize, usize> = HashMap::new();
    let mut backward: HashMap<usize, usize> = HashMap::new();
    let mut i: usize = 0;
    while i < n
        invariant
            s == program@,
            n == s.len(),
            i <= n,
            forall|k: int|
                0 <= k < open_positions@.len() ==> (#[trigger] open_positions@[k]) < i
                    && s[open_positions@[k] as int] == '[',
            forall|k: int|
                0 <= k < open_positions@.len() ==> depth(
                    s,
                    #[trigger] open_positions@[k] as int,
                ) == k,
            open_positions@.len() == depth(s, i as int),
            closes_covered(s, i as int),
            forall|k: int, j: int|
                0 <= k < open_positions@.len() && open_positions@[k] < j && j <= i ==> depth(s, j)
                    > k,
            forall|p: usize| #[trigger]
                forward@.contains_key(p) ==> is_match(s, p as int, forward@[p] as int)
                    && forward@[p] < i,
            forall|q: usize| #[trigger]
                backward@.contains_key(q) ==> is_match(s, backward@[q] as int, q as int) && q < i,
            forall|p: usize| #[trigger]
                forward@.contains_key(p) ==> backward@.contains_key(forward@[p])
                    && backward@[forward@[p]] == p,
            forall|q: usize| #[trigger]
                backward@.contains_key(q) ==> forward@.contains_key(backward@[q])
                    && forward@[backward@[q]] == q,
            forall|p: int|
                0 <= p < i && s[p] == '[' ==> forward@.contains_key(p as usize)
                    || open_positions@.contains(p as usize),
            forall|q: int| 0 <= q < i && s[q] == ']' ==> backward@.contains_key(q as usize),
        decreases n - i,
    {
        let ghost st0 = open_positions@;
        let c = program.get_char(i);
        if c == '[' {
            open_positions.push(i);
            proof {
                assert(depth(s, i + 1) == depth(s, i as int) + 1);
                assert forall|p: int|
                    0 <= p < i + 1 && s[p] == '[' && !forward@.contains_key(
                        p as usize,
                    ) implies open_positions@.contains(p as usize) by {
                    if p < i {
                        assert(st0.contains(p as usize));
                        let k = choose|k: int| 0 <= k < st0.len() && st0[k] == p as usize;
                        assert(open_positions@[k] == p as usize);
                    } else {
                        assert(open_positions@[st0.len() as int] == i);
                    }
                }
            }
        } else if c == ']' {
            match open_positions.pop() {
                Some(open) => {
                    proof {
                        let m = st0.len() - 1;
                        assert(open == st0[m]);
                        assert(depth(s, i as int) == m + 1);
                        assert(depth(s, i + 1) == depth(s, i as int) - 1);
                        assert(depth(s, open as int) == m);
                        // the segment after `open` never returns to its level,
                        // so `i` is its match
                        assert(is_match(s, open as int, i as int));
                        // `open` cannot already be in the table: its recorded
                        // close would lie strictly between `open` and `i`,
                        // where the depth stays above its level
                        if forward@.contains_key(open) {
                            let qq = forward@[open];
                            assert(depth(s, qq + 1) == depth(s, open as int));
                            assert(depth(s, qq + 1) > m);
                        }
                        assert(!forward@.contains_key(open));
                    }
                    forward.insert(open, i);
                    backward.insert(i, open);
                    proof {
                        assert forall|q: usize| #[trigger]
                            backward@.contains_key(q) implies forward@.contains_key(backward@[q])
                            && forward@[backward@[q]] == q by {
                            if q != i {
                                assert(backward@[q] != open);
                            }
                        }
                        assert forall|p: int|
                            0 <= p < i + 1 && s[p] == '[' && !forward@.contains_key(
                                p as usize,
                            ) implies open_positions@.contains(p as usize) by {
                            assert(p < i);
                            assert(st0.contains(p as usize));
                            let k = choose|k: int| 0 <= k < st0.len() && st0[k] == p as usize;
                            if k < st0.len() - 1 {
                                assert(open_positions@[k] == p as usize);
                            }
                        }
                    }
                },
                None => {
                    proof {
                        assert(depth(s, i as int) == 0);
                        assert(depth(s, i + 1) == -1);
                    }
                    return Err(JumpsError::UnmatchedClose(i));
                },
            }
        } else {
            proof {
                assert(depth(s, i + 1) == depth(s, i as int));
            }
        }
        i = i + 1;
    }
    if open_positions.len() > 0 {
        return Err(JumpsError::UnmatchedOpen);
    }
    proof {
        assert forall|p: int| 0 <= p < s.len() && s[p] == '[' implies forward@.contains_key(
            p as usize,
        ) by {
            assert(!open_positions@.contains(p as usize));
        }
    }
    Ok(Jumps { forward, backward })
}

} // verus!
