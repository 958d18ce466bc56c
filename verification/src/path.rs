//! Which stored paths may be joined to a directory of installation.
//!
//! A path is a byte string. Its components are the runs of bytes between
//! separators, so a path with `n` separators has `n + 1` components, some of
//! them possibly empty. A path is safe when every component is a plain name:
//! not empty, not `.` and not `..`. A safe path has no leading, trailing or
//! doubled separator, and joined to a directory it names a place below it.

use vstd::prelude::*;

verus! {

/// The byte that separates the components of a path.
pub const SEPARATOR: u8 = 0x2f;

/// The byte of which `.` and `..` are made.
pub const DOT: u8 = 0x2e;

/// Whether the bytes of `path` from `start` up to `end` are one of its
/// components: a run without a separator that neither side can extend.
pub open spec fn is_component(path: Seq<u8>, start: int, end: int) -> bool {
    &&& 0 <= start <= end <= path.len()
    &&& (start == 0 || path[start - 1] == SEPARATOR)
    &&& (end == path.len() || path[end] == SEPARATOR)
    &&& forall|k: int| start <= k < end ==> path[k] != SEPARATOR
}

/// Whether a component is a plain name.
pub open spec fn is_normal(component: Seq<u8>) -> bool {
    &&& component.len() > 0
    &&& component != seq![DOT]
    &&& component != seq![DOT, DOT]
}

/// Whether every component of `path` is a plain name.
pub open spec fn is_safe(path: Seq<u8>) -> bool {
    forall|start: int, end: int| #[trigger]
        is_component(path, start, end) ==> is_normal(path.subrange(start, end))
}

/// Whether the component from `start` up to `end` is the first one of `path`
/// that is not a plain name.
pub open spec fn is_first_fault(path: Seq<u8>, start: int, end: int) -> bool {
    &&& is_component(path, start, end)
    &&& !is_normal(path.subrange(start, end))
    &&& forall|s: int, e: int| #[trigger]
        is_component(path, s, e) && s < start ==> is_normal(path.subrange(s, e))
}

/// How a faulty component is reported: the empty component in front of a
/// leading separator as the root `/`, any other by its bytes.
pub open spec fn reported(path: Seq<u8>, start: int, end: int) -> Seq<u8> {
    if end == 0 && path.len() > 0 {
        seq![SEPARATOR]
    } else {
        path.subrange(start, end)
    }
}

/// Whether `component` is the report of the first faulty component of `path`.
pub open spec fn reports_first_fault(path: Seq<u8>, component: Seq<u8>) -> bool {
    exists|start: int, end: int| #[trigger]
        is_first_fault(path, start, end) && component == reported(path, start, end)
}

/// Whether `path` could lead out of the directory that it is joined to, or
/// names no place in it: it has a component `..`, it starts with a
/// separator, or it has an empty component.
pub open spec fn escapes(path: Seq<u8>) -> bool {
    ||| exists|start: int, end: int| #[trigger]
        is_component(path, start, end) && path.subrange(start, end) == seq![DOT, DOT]
    ||| path.len() > 0 && path[0] == SEPARATOR
    ||| exists|start: int| #[trigger] is_component(path, start, start)
}

/// A path with a component `..`, a leading separator or an empty component
/// is not safe.
pub proof fn lemma_escaping_is_unsafe(path: Seq<u8>)
    requires
        escapes(path),
    ensures
        !is_safe(path),
{
    if path.len() > 0 && path[0] == SEPARATOR {
        assert(is_component(path, 0, 0));
        assert(!is_normal(path.subrange(0, 0)));
    } else if exists|start: int| #[trigger] is_component(path, start, start) {
        let start = choose|start: int| #[trigger] is_component(path, start, start);
        assert(!is_normal(path.subrange(start, start)));
    } else {
        let (start, end) = choose|start: int, end: int| #[trigger]
            is_component(path, start, end) && path.subrange(start, end) == seq![DOT, DOT];
        assert(!is_normal(path.subrange(start, end)));
    }
}

/// A path has at most one first faulty component.
pub proof fn lemma_first_fault_unique(path: Seq<u8>, s1: int, e1: int, s2: int, e2: int)
    requires
        is_first_fault(path, s1, e1),
        is_first_fault(path, s2, e2),
    ensures
        s1 == s2,
        e1 == e2,
{
    if e1 < e2 {
        assert(path[e1] == SEPARATOR);
    } else if e2 < e1 {
        assert(path[e2] == SEPARATOR);
    }
}

/// A path with a faulty component is not safe, and a path that is not safe
/// has a first faulty component.
pub proof fn lemma_fault_iff_unsafe(path: Seq<u8>)
    ensures
        !is_safe(path) <==> exists|start: int, end: int| #[trigger]
            is_first_fault(path, start, end),
{
    if !is_safe(path) {
        let (s0, e0) = choose|s: int, e: int| #[trigger]
            is_component(path, s, e) && !is_normal(path.subrange(s, e));
        lemma_first_fault_exists(path, s0, e0);
    }
}

/// A path with a faulty component has a first faulty component.
proof fn lemma_first_fault_exists(path: Seq<u8>, s0: int, e0: int)
    requires
        is_component(path, s0, e0),
        !is_normal(path.subrange(s0, e0)),
    ensures
        exists|start: int, end: int| #[trigger] is_first_fault(path, start, end),
    decreases s0,
{
    if exists|s: int, e: int| #[trigger]
        is_component(path, s, e) && s < s0 && !is_normal(path.subrange(s, e)) {
        let (s, e) = choose|s: int, e: int| #[trigger]
            is_component(path, s, e) && s < s0 && !is_normal(path.subrange(s, e));
        lemma_first_fault_exists(path, s, e);
    } else {
        assert(is_first_fault(path, s0, e0));
    }
}

/// Walks the components of `path` and stops at the first that is not a plain
/// name. Returns where that component starts and ends.
pub fn first_fault(path: &[u8]) -> (fault: Option<(usize, usize)>)
    ensures
        fault is None <==> is_safe(path@),
        fault matches Some((start, end)) ==> is_first_fault(path@, start as int, end as int),
{
    let len = path.len();
    let mut start: usize = 0;
    loop
        invariant
            len == path@.len(),
            start <= len,
            start == 0 || path@[start - 1] == SEPARATOR,
            forall|s: int, e: int| #[trigger]
                is_component(path@, s, e) && s < start ==> is_normal(path@.subrange(s, e)),
        decreases len - start,
    {
        let mut end: usize = start;
        while end < len && path[end] != SEPARATOR
            invariant
                len == path@.len(),
                start <= end <= len,
                forall|k: int| start <= k < end ==> path@[k] != SEPARATOR,
            decreases len - end,
        {
            end += 1;
        }
        assert(is_component(path@, start as int, end as int));
        let ghost component = path@.subrange(start as int, end as int);
        let size = end - start;
        let faulty = size == 0 || (size == 1 && path[start] == DOT) || (size == 2 && path[start]
            == DOT && path[start + 1] == DOT);
        proof {
            if size == 1 {
                assert(component =~= seq![path@[start as int]]);
                assert(seq![DOT][0] == DOT);
            }
            if size == 2 {
                assert(component =~= seq![path@[start as int], path@[start + 1]]);
                assert(seq![DOT, DOT][0] == DOT && seq![DOT, DOT][1] == DOT);
            }
            assert(seq![DOT].len() == 1 && seq![DOT, DOT].len() == 2);
            assert(faulty <==> !is_normal(component));
        }
        if faulty {
            return Some((start, end));
        }
        // Every component that starts at `start` ends at `end`, and none
        // starts inside it.
        assert forall|s: int, e: int| #[trigger]
            is_component(path@, s, e) && s <= end implies is_normal(path@.subrange(s, e)) by {
            if s == start {
                if e < end {
                    assert(path@[e] != SEPARATOR);
                } else if e > end {
                    assert(path@[end as int] == SEPARATOR);
                }
                assert(e == end);
            } else if s > start {
                assert(path@[s - 1] != SEPARATOR);
            }
        }
        if end == len {
            assert(is_safe(path@));
            return None;
        }
        start = end + 1;
    }
}

} // verus!
