//! The column index map: resolving a column name to its zero-based
//! position in the header row.  It is rebuilt from the header on every
//! validation or execution; a name that occurs twice resolves to its first
//! position.

use vstd::prelude::*;

verus! {

/// The position of `name` in `header`, or `-1` when absent.
pub open spec fn col_idx(header: Seq<Seq<char>>, name: Seq<char>) -> int
    decreases header.len(),
{
    if header.len() == 0 {
        -1
    } else if header[0] == name {
        0
    } else {
        let r = col_idx(header.skip(1), name);
        if r < 0 {
            -1
        } else {
            1 + r
        }
    }
}

/// Whether `name` is a column of `header`.
pub open spec fn has_col(header: Seq<Seq<char>>, name: Seq<char>) -> bool {
    col_idx(header, name) >= 0
}

/// `col_idx` finds the first position holding `name`, when there is one.
pub proof fn lemma_col_idx(header: Seq<Seq<char>>, name: Seq<char>)
    ensures
        col_idx(header, name) == -1 ==> (forall|j: int|
            0 <= j < header.len() ==> header[j] != name),
        col_idx(header, name) >= 0 ==> 0 <= col_idx(header, name) < header.len() && header[col_idx(
            header,
            name,
        )] == name && (forall|j: int| 0 <= j < col_idx(header, name) ==> header[j] != name),
    decreases header.len(),
{
    if header.len() > 0 && header[0] != name {
        let t = header.skip(1);
        lemma_col_idx(t, name);
        assert(forall|j: int| 0 <= j < t.len() ==> t[j] == header[j + 1]);
        if col_idx(t, name) == -1 {
            assert forall|j: int| 0 <= j < header.len() implies header[j] != name by {
                if j > 0 {
                    assert(t[j - 1] == header[j]);
                }
            }
        } else {
            assert forall|j: int| 0 <= j < col_idx(header, name) implies header[j] != name by {
                if j > 0 {
                    assert(t[j - 1] == header[j]);
                }
            }
        }
    }
}

/// The characterization pins `col_idx` down: a dot-free prefix and a hit —
/// or no hit at all — decide it.
pub proof fn lemma_col_idx_is(header: Seq<Seq<char>>, name: Seq<char>, k: int)
    requires
        0 <= k <= header.len(),
        forall|j: int| 0 <= j < k ==> header[j] != name,
        k < header.len() ==> header[k] == name,
    ensures
        k < header.len() ==> col_idx(header, name) == k,
        k == header.len() ==> col_idx(header, name) == -1,
    decreases header.len(),
{
    if k == 0 {
        if header.len() > 0 {
        } else {
        }
    } else {
        let t = header.skip(1);
        assert(header[0] != name);
        assert(forall|j: int| 0 <= j < k - 1 ==> t[j] == header[j + 1] && header[j + 1] != name);
        assert(k - 1 < t.len() ==> t[k - 1] == header[k]);
        lemma_col_idx_is(t, name, k - 1);
    }
}

/// Resolves a column name against the header row: its first position, or
/// nothing when it is not a header column.
pub fn find_col(header: &Vec<String>, name: &String) -> (r: Option<usize>)
    ensures
        match r {
            Some(i) => col_idx(header.deep_view(), name@) == i && i < header.len(),
            None => col_idx(header.deep_view(), name@) == -1,
        },
{
    let ghost h = header.deep_view();
    let n = header.len();
    proof {
        assert(h.len() == header@.len());
    }
    let mut i: usize = 0;
    while i < n
        invariant
            0 <= i <= n,
            n == header@.len(),
            h == header.deep_view(),
            h.len() == n,
            forall|j: int| 0 <= j < i ==> h[j] != name@,
        decreases n - i,
    {
        if header[i].eq(name) {
            proof {
                lemma_col_idx_is(h, name@, i as int);
            }
            return Some(i);
        }
        i = i + 1;
    }
    proof {
        lemma_col_idx_is(h, name@, n as int);
    }
    None
}

} // verus!
