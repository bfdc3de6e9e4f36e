//! Facts about the block pools: sequences without repetition that gain
//! members at the back and lose them at the front.

use vstd::prelude::*;

verus! {

pub proof fn lemma_push_contains(s: Seq<nat>, x: nat, y: nat)
    ensures
        s.push(x).contains(y) <==> s.contains(y) || y == x,
{
    let t = s.push(x);
    if s.contains(y) {
        let i = choose|i: int| 0 <= i < s.len() && s[i] == y;
        assert(t[i] == y);
    }
    if y == x {
        assert(t[s.len() as int] == y);
    }
    if t.contains(y) {
        let i = choose|i: int| 0 <= i < t.len() && t[i] == y;
        if i < s.len() {
            assert(s[i] == y);
        }
    }
}

pub proof fn lemma_drop_first_contains(s: Seq<nat>, y: nat)
    requires
        s.len() > 0,
    ensures
        s.contains(y) <==> y == s[0] || s.drop_first().contains(y),
{
    let t = s.drop_first();
    if s.contains(y) && y != s[0] {
        let i = choose|i: int| 0 <= i < s.len() && s[i] == y;
        assert(t[i - 1] == y);
    }
    if t.contains(y) {
        let i = choose|i: int| 0 <= i < t.len() && t[i] == y;
        assert(s[i + 1] == y);
    }
}

pub proof fn lemma_push_no_duplicates(s: Seq<nat>, x: nat)
    requires
        s.no_duplicates(),
        !s.contains(x),
    ensures
        s.push(x).no_duplicates(),
{
    let t = s.push(x);
    assert forall|i: int, j: int| 0 <= i < t.len() && 0 <= j < t.len() && i != j implies t[i]
        != t[j] by {
        if i < s.len() {
            assert(s.contains(s[i]));
        }
        if j < s.len() {
            assert(s.contains(s[j]));
        }
    }
}

pub proof fn lemma_drop_first_no_duplicates(s: Seq<nat>)
    requires
        s.no_duplicates(),
        s.len() > 0,
    ensures
        s.drop_first().no_duplicates(),
        !s.drop_first().contains(s[0]),
{
    let t = s.drop_first();
    assert forall|i: int, j: int| 0 <= i < t.len() && 0 <= j < t.len() && i != j implies t[i]
        != t[j] by {
        assert(t[i] == s[i + 1]);
        assert(t[j] == s[j + 1]);
    }
    if t.contains(s[0]) {
        let i = choose|i: int| 0 <= i < t.len() && t[i] == s[0];
        assert(s[i + 1] == s[0]);
    }
}

} // verus!
