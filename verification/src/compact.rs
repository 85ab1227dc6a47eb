//! Compaction: fewer and shorter codes for the same region.
//!
//! A cell has 32 children, the codes one symbol longer that start with its
//! code. Where enough children of one cell are in a set, the cell itself can
//! stand for them. How many are enough is the threshold: with 32 nothing is
//! added to the region, with less the region may grow.
use vstd::prelude::*;
use vstd::string::*;
use crate::alphabet::{is_symbol, is_valid_code, lemma_valid_code_is_ascii, valid_code};
use crate::error::GeohashError;

verus! {

/// The code of the cell that holds the cell of `code`: `code` without its
/// last symbol.
pub open spec fn parent(code: Seq<char>) -> Seq<char> {
    code.drop_last()
}

/// Whether all of `codes` are valid.
pub open spec fn all_valid(codes: Seq<Seq<char>>) -> bool {
    forall|i: int| 0 <= i < codes.len() ==> valid_code(#[trigger] codes[i])
}

/// Whether another code among `codes` is a prefix of `code`, so that its
/// cell holds the cell of `code`.
pub open spec fn dominated(codes: Seq<Seq<char>>, code: Seq<char>) -> bool {
    exists|j: int|
        #![trigger codes[j]]
        0 <= j < codes.len() && codes[j] != code && codes[j].is_prefix_of(code)
}

/// Whether `code` is a child of `prefix`.
pub open spec fn is_child(code: Seq<char>, prefix: Seq<char>) -> bool {
    code.len() >= 2 && parent(code) == prefix
}

/// How many of `codes`, each counted as often as it occurs, are children of
/// `prefix`. A code of one symbol counts for no parent.
pub open spec fn sibling_count(codes: Seq<Seq<char>>, prefix: Seq<char>) -> nat
    decreases codes.len(),
{
    if codes.len() == 0 {
        0
    } else {
        sibling_count(codes.drop_last(), prefix) + if is_child(codes.last(), prefix) {
            1nat
        } else {
            0nat
        }
    }
}

/// What stands for `code` after one pass: its parent if `code` has two
/// symbols or more and at least `threshold` of `codes` are children of that
/// parent, else `code` itself.
pub open spec fn promoted(codes: Seq<Seq<char>>, threshold: nat, code: Seq<char>) -> Seq<char> {
    if code.len() >= 2 && sibling_count(codes, parent(code)) >= threshold {
        parent(code)
    } else {
        code
    }
}

/// The outcome of one pass over the first `n` of `codes`: a dominated code
/// is dropped, each other code gives what stands for it, and of equal
/// outcomes the first stays.
pub open spec fn compact_prefix(codes: Seq<Seq<char>>, threshold: nat, n: nat) -> Seq<Seq<char>>
    decreases n,
{
    if n == 0 {
        Seq::empty()
    } else {
        let before = compact_prefix(codes, threshold, (n - 1) as nat);
        let code = codes[n - 1];
        if dominated(codes, code) {
            before
        } else if before.contains(promoted(codes, threshold, code)) {
            before
        } else {
            before.push(promoted(codes, threshold, code))
        }
    }
}

/// The outcome of one pass over `codes`.
pub open spec fn compact_once(codes: Seq<Seq<char>>, threshold: nat) -> Seq<Seq<char>> {
    compact_prefix(codes, threshold, codes.len())
}

/// The outcome of passes over `codes` until one leaves the number of codes
/// as it was. A pass never adds a code, so a pass that changes the number
/// makes it smaller.
pub open spec fn compress_spec(codes: Seq<Seq<char>>, threshold: nat) -> Seq<Seq<char>>
    decreases codes.len(),
{
    let next = compact_once(codes, threshold);
    if next.len() < codes.len() {
        compress_spec(next, threshold)
    } else {
        next
    }
}

/// What one pass over the first `n` codes gives: at most `n` codes, no code
/// twice; and if it gives `n` codes, then none of the `n` was dominated and
/// each outcome stands at the place of its code.
pub proof fn lemma_compact_prefix(codes: Seq<Seq<char>>, threshold: nat, n: nat)
    requires
        n <= codes.len(),
    ensures
        compact_prefix(codes, threshold, n).len() <= n,
        compact_prefix(codes, threshold, n).no_duplicates(),
        compact_prefix(codes, threshold, n).len() == n ==> forall|i: int|
            0 <= i < n ==> !dominated(codes, #[trigger] codes[i]) && compact_prefix(
                codes,
                threshold,
                n,
            )[i] == promoted(codes, threshold, codes[i]),
    decreases n,
{
    if n > 0 {
        lemma_compact_prefix(codes, threshold, (n - 1) as nat);
    }
}

/// A pass never gives more codes than it was given.
pub proof fn lemma_compact_once_len(codes: Seq<Seq<char>>, threshold: nat)
    ensures
        compact_once(codes, threshold).len() <= codes.len(),
{
    lemma_compact_prefix(codes, threshold, codes.len());
}

/// Where a prefix has a child among `codes`, one of them is a child of it.
proof fn lemma_sibling_exists(codes: Seq<Seq<char>>, prefix: Seq<char>)
    requires
        sibling_count(codes, prefix) >= 1,
    ensures
        exists|j: int| 0 <= j < codes.len() && is_child(#[trigger] codes[j], prefix),
    decreases codes.len(),
{
    if codes.len() > 0 {
        let init = codes.drop_last();
        if is_child(codes.last(), prefix) {
            assert(is_child(codes[codes.len() - 1], prefix));
        } else {
            lemma_sibling_exists(init, prefix);
            let j = choose|j: int| 0 <= j < init.len() && is_child(#[trigger] init[j], prefix);
            assert(is_child(codes[j], prefix));
        }
    }
}

/// Where a prefix has two children or more among `codes`, one of them
/// stands at another place than `i`.
proof fn lemma_other_sibling(codes: Seq<Seq<char>>, prefix: Seq<char>, i: int)
    requires
        sibling_count(codes, prefix) >= 2,
    ensures
        exists|j: int| 0 <= j < codes.len() && j != i && is_child(#[trigger] codes[j], prefix),
    decreases codes.len(),
{
    if codes.len() > 0 {
        let init = codes.drop_last();
        let last = codes.len() - 1;
        if i == last {
            lemma_sibling_exists(init, prefix);
            let j = choose|j: int| 0 <= j < init.len() && is_child(#[trigger] init[j], prefix);
            assert(is_child(codes[j], prefix));
        } else if is_child(codes.last(), prefix) {
            assert(is_child(codes[last], prefix));
        } else {
            lemma_other_sibling(init, prefix, i);
            let j = choose|j: int|
                0 <= j < init.len() && j != i && is_child(#[trigger] init[j], prefix);
            assert(is_child(codes[j], prefix));
        }
    }
}

/// With a threshold of two or more, a pass that keeps the number of codes
/// keeps the codes.
pub proof fn lemma_stable_pass(codes: Seq<Seq<char>>, threshold: nat)
    requires
        threshold >= 2,
        compact_once(codes, threshold).len() == codes.len(),
    ensures
        compact_once(codes, threshold) == codes,
{
    let next = compact_once(codes, threshold);
    lemma_compact_prefix(codes, threshold, codes.len());
    assert forall|i: int| 0 <= i < codes.len() implies next[i] == codes[i] by {
        let code = codes[i];
        assert(next[i] == promoted(codes, threshold, code));
        if promoted(codes, threshold, code) != code {
            lemma_other_sibling(codes, parent(code), i);
            let j = choose|j: int|
                0 <= j < codes.len() && j != i && is_child(#[trigger] codes[j], parent(code));
            assert(next[j] == promoted(codes, threshold, codes[j]));
            assert(next[j] == next[i]);
        }
    }
    assert(next =~= codes);
}

/// A pass changes nothing where no code occurs twice, none is dominated and
/// none gives way to its parent.
pub proof fn lemma_fixed_pass(codes: Seq<Seq<char>>, threshold: nat)
    requires
        codes.no_duplicates(),
        forall|i: int|
            0 <= i < codes.len() ==> !dominated(codes, #[trigger] codes[i]) && promoted(
                codes,
                threshold,
                codes[i],
            ) == codes[i],
    ensures
        compact_once(codes, threshold) == codes,
{
    lemma_fixed_prefix(codes, threshold, codes.len());
    assert(codes.take(codes.len() as int) =~= codes);
}

proof fn lemma_fixed_prefix(codes: Seq<Seq<char>>, threshold: nat, n: nat)
    requires
        n <= codes.len(),
        codes.no_duplicates(),
        forall|i: int|
            0 <= i < codes.len() ==> !dominated(codes, #[trigger] codes[i]) && promoted(
                codes,
                threshold,
                codes[i],
            ) == codes[i],
    ensures
        compact_prefix(codes, threshold, n) == codes.take(n as int),
    decreases n,
{
    if n == 0 {
        assert(codes.take(0) =~= Seq::<Seq<char>>::empty());
    } else {
        lemma_fixed_prefix(codes, threshold, (n - 1) as nat);
        let before = codes.take(n - 1);
        let code = codes[n - 1];
        assert(promoted(codes, threshold, code) == code);
        if before.contains(code) {
            let j = choose|j: int| 0 <= j < before.len() && before[j] == code;
            assert(codes[j] == codes[n - 1]);
        }
        assert(before.push(code) =~= codes.take(n as int));
    }
}

/// Compacting what was compacted changes nothing, if the threshold is two or
/// more, or if no code that came out has more than one symbol.
///
/// With a threshold below two a single code is enough to give way to its
/// parent, so a pass can keep the number of codes and still shorten them.
/// A second call then goes on where the first stopped, and ends elsewhere
/// unless there was nothing left to shorten.
pub proof fn lemma_compress_idempotent(codes: Seq<Seq<char>>, threshold: nat)
    requires
        threshold >= 2 || forall|i: int|
            0 <= i < compress_spec(codes, threshold).len() ==> (#[trigger] compress_spec(
                codes,
                threshold,
            )[i]).len() <= 1,
    ensures
        compress_spec(compress_spec(codes, threshold), threshold) == compress_spec(
            codes,
            threshold,
        ),
    decreases codes.len(),
{
    let next = compact_once(codes, threshold);
    lemma_compact_once_len(codes, threshold);
    if next.len() < codes.len() {
        assert(compress_spec(codes, threshold) == compress_spec(next, threshold));
        lemma_compress_idempotent(next, threshold);
    } else if threshold >= 2 {
        lemma_stable_pass(codes, threshold);
    } else {
        assert(compress_spec(codes, threshold) == next);
        lemma_compact_prefix(codes, threshold, codes.len());
        assert forall|a: int| 0 <= a < next.len() implies !dominated(next, #[trigger] next[a])
            && promoted(next, threshold, next[a]) == next[a] by {
            assert(next[a].len() <= 1);
            if dominated(next, next[a]) {
                let b = choose|b: int|
                    #![trigger next[b]]
                    0 <= b < next.len() && next[b] != next[a] && next[b].is_prefix_of(next[a]);
                assert(next[b].len() <= 1);
                assert(next[a].subrange(0, next[a].len() as int) =~= next[a]);
                assert(next[b].len() == 0 && next[a].len() == 1);
                assert(next[b] == promoted(codes, threshold, codes[b]));
                assert(next[a] == promoted(codes, threshold, codes[a]));
                assert(codes[b].len() == 0);
                assert(codes[b].is_prefix_of(codes[a]));
                assert(dominated(codes, codes[a]));
            }
        }
        lemma_fixed_pass(next, threshold);
    }
}

/// A prefix of a prefix is a prefix.
proof fn lemma_prefix_transitive(a: Seq<char>, b: Seq<char>, c: Seq<char>)
    requires
        a.is_prefix_of(b),
        b.is_prefix_of(c),
    ensures
        a.is_prefix_of(c),
{
    assert forall|i: int| 0 <= i < a.len() implies a[i] == c[i] by {
        assert(a[i] == b.subrange(0, a.len() as int)[i]);
        assert(b[i] == c.subrange(0, b.len() as int)[i]);
    }
    assert(a =~= c.subrange(0, a.len() as int));
}

/// Among the codes that are prefixes of `target` there is one that no other
/// code is a prefix of. The result is its place.
proof fn lemma_shortest_prefix(codes: Seq<Seq<char>>, target: Seq<char>, j: int) -> (m: int)
    requires
        0 <= j < codes.len(),
        codes[j].is_prefix_of(target),
    ensures
        0 <= m < codes.len(),
        codes[m].is_prefix_of(target),
        !dominated(codes, codes[m]),
    decreases codes[j].len(),
{
    if dominated(codes, codes[j]) {
        let k = choose|k: int|
            #![trigger codes[k]]
            0 <= k < codes.len() && codes[k] != codes[j] && codes[k].is_prefix_of(codes[j]);
        assert(codes[j].subrange(0, codes[j].len() as int) =~= codes[j]);
        lemma_prefix_transitive(codes[k], codes[j], target);
        lemma_shortest_prefix(codes, target, k)
    } else {
        j
    }
}

/// What stands for a code that is not dominated is in the outcome of the
/// pass, from the place of the code on.
proof fn lemma_pass_keeps(codes: Seq<Seq<char>>, threshold: nat, n: nat, m: int)
    requires
        0 <= m < n <= codes.len(),
        !dominated(codes, codes[m]),
    ensures
        compact_prefix(codes, threshold, n).contains(promoted(codes, threshold, codes[m])),
    decreases n,
{
    let before = compact_prefix(codes, threshold, (n - 1) as nat);
    let after = compact_prefix(codes, threshold, n);
    let kept = promoted(codes, threshold, codes[m]);
    if m < n - 1 {
        lemma_pass_keeps(codes, threshold, (n - 1) as nat, m);
        let k = choose|k: int| 0 <= k < before.len() && before[k] == kept;
        assert(after[k] == kept);
    } else if !before.contains(kept) {
        assert(after[after.len() - 1] == kept);
    }
}

/// Every code in the outcome of a pass stands for one of the codes.
proof fn lemma_pass_origin(codes: Seq<Seq<char>>, threshold: nat, n: nat, k: int)
    requires
        n <= codes.len(),
        0 <= k < compact_prefix(codes, threshold, n).len(),
    ensures
        exists|i: int|
            0 <= i < n && compact_prefix(codes, threshold, n)[k] == promoted(
                codes,
                threshold,
                #[trigger] codes[i],
            ),
    decreases n,
{
    if n > 0 {
        let before = compact_prefix(codes, threshold, (n - 1) as nat);
        if k < before.len() {
            lemma_pass_origin(codes, threshold, (n - 1) as nat, k);
            let i = choose|i: int|
                0 <= i < n - 1 && before[k] == promoted(codes, threshold, #[trigger] codes[i]);
            assert(compact_prefix(codes, threshold, n)[k] == promoted(codes, threshold, codes[i]));
        } else {
            assert(compact_prefix(codes, threshold, n)[k] == promoted(
                codes,
                threshold,
                codes[n - 1],
            ));
        }
    }
}

/// What stands for a code is a prefix of it.
proof fn lemma_promoted_is_prefix(codes: Seq<Seq<char>>, threshold: nat, code: Seq<char>)
    ensures
        promoted(codes, threshold, code).is_prefix_of(code),
{
    assert(code.subrange(0, code.len() as int) =~= code);
}

/// What was compacted covers what was given: every code that went in has a
/// prefix among the codes that came out.
pub proof fn lemma_compress_covers(codes: Seq<Seq<char>>, threshold: nat, i: int)
    requires
        0 <= i < codes.len(),
    ensures
        exists|k: int|
            0 <= k < compress_spec(codes, threshold).len() && (#[trigger] compress_spec(
                codes,
                threshold,
            )[k]).is_prefix_of(codes[i]),
    decreases codes.len(),
{
    let next = compact_once(codes, threshold);
    assert(codes[i].subrange(0, codes[i].len() as int) =~= codes[i]);
    let m = lemma_shortest_prefix(codes, codes[i], i);
    lemma_pass_keeps(codes, threshold, codes.len(), m);
    let kept = promoted(codes, threshold, codes[m]);
    lemma_promoted_is_prefix(codes, threshold, codes[m]);
    lemma_prefix_transitive(kept, codes[m], codes[i]);
    let j = choose|j: int| 0 <= j < next.len() && next[j] == kept;
    if next.len() < codes.len() {
        lemma_compress_covers(next, threshold, j);
        let out = compress_spec(next, threshold);
        let k = choose|k: int| 0 <= k < out.len() && (#[trigger] out[k]).is_prefix_of(next[j]);
        lemma_prefix_transitive(out[k], next[j], codes[i]);
        assert(compress_spec(codes, threshold) == out);
        assert(compress_spec(codes, threshold)[k].is_prefix_of(codes[i]));
    } else {
        assert(compress_spec(codes, threshold)[j].is_prefix_of(codes[i]));
    }
}

/// Nothing is made up: every code that came out is a prefix of a code that
/// went in, or that code itself.
pub proof fn lemma_compress_origin(codes: Seq<Seq<char>>, threshold: nat, k: int)
    requires
        0 <= k < compress_spec(codes, threshold).len(),
    ensures
        exists|i: int|
            0 <= i < codes.len() && compress_spec(codes, threshold)[k].is_prefix_of(
                #[trigger] codes[i],
            ),
    decreases codes.len(),
{
    let next = compact_once(codes, threshold);
    if next.len() < codes.len() {
        lemma_compress_origin(next, threshold, k);
        let out = compress_spec(next, threshold);
        let j = choose|j: int| 0 <= j < next.len() && out[k].is_prefix_of(#[trigger] next[j]);
        lemma_pass_origin(codes, threshold, codes.len(), j);
        let i = choose|i: int|
            0 <= i < codes.len() && next[j] == promoted(codes, threshold, #[trigger] codes[i]);
        lemma_promoted_is_prefix(codes, threshold, codes[i]);
        lemma_prefix_transitive(out[k], next[j], codes[i]);
    } else {
        lemma_pass_origin(codes, threshold, codes.len(), k);
        let i = choose|i: int|
            0 <= i < codes.len() && next[k] == promoted(codes, threshold, #[trigger] codes[i]);
        lemma_promoted_is_prefix(codes, threshold, codes[i]);
    }
}

/// What comes out of valid codes is valid.
pub proof fn lemma_compress_valid(codes: Seq<Seq<char>>, threshold: nat)
    requires
        all_valid(codes),
    ensures
        all_valid(compress_spec(codes, threshold)),
{
    let out = compress_spec(codes, threshold);
    assert forall|k: int| 0 <= k < out.len() implies valid_code(#[trigger] out[k]) by {
        lemma_compress_origin(codes, threshold, k);
        let i = choose|i: int| 0 <= i < codes.len() && out[k].is_prefix_of(#[trigger] codes[i]);
        assert forall|j: int| 0 <= j < out[k].len() implies is_symbol(#[trigger] out[k][j]) by {
            assert(out[k][j] == codes[i].subrange(0, out[k].len() as int)[j]);
            assert(is_symbol(codes[i][j]));
        }
    }
}

/// No code comes out twice.
pub proof fn lemma_compress_distinct(codes: Seq<Seq<char>>, threshold: nat)
    ensures
        compress_spec(codes, threshold).no_duplicates(),
    decreases codes.len(),
{
    let next = compact_once(codes, threshold);
    lemma_compact_prefix(codes, threshold, codes.len());
    if next.len() < codes.len() {
        lemma_compress_distinct(next, threshold);
    }
}

/// Whether the two codes are equal.
fn same_code(a: &str, b: &str) -> (r: bool)
    requires
        a.is_ascii(),
        b.is_ascii(),
    ensures
        r == (a@ == b@),
{
    broadcast use is_ascii_spec_bytes;

    let x = a.as_bytes();
    let y = b.as_bytes();
    if x.len() != y.len() {
        return false;
    }
    let mut i: usize = 0;
    while i < x.len()
        invariant
            i <= x.len(),
            x.len() == y.len(),
            a.is_ascii(),
            b.is_ascii(),
            x@ == a.spec_bytes(),
            y@ == b.spec_bytes(),
            forall|j: int| 0 <= j < i ==> a@[j] == b@[j],
        decreases x.len() - i,
    {
        if x[i] != y[i] {
            return false;
        }
        i += 1;
    }
    proof {
        assert(a@ =~= b@);
    }
    true
}

/// Whether `prefix` is a prefix of `code`.
fn has_prefix(code: &str, prefix: &str) -> (r: bool)
    requires
        code.is_ascii(),
        prefix.is_ascii(),
    ensures
        r == prefix@.is_prefix_of(code@),
{
    broadcast use is_ascii_spec_bytes;

    let x = prefix.as_bytes();
    let y = code.as_bytes();
    if x.len() > y.len() {
        return false;
    }
    let mut i: usize = 0;
    while i < x.len()
        invariant
            i <= x.len() <= y.len(),
            code.is_ascii(),
            prefix.is_ascii(),
            x@ == prefix.spec_bytes(),
            y@ == code.spec_bytes(),
            forall|j: int| 0 <= j < i ==> prefix@[j] == code@[j],
        decreases x.len() - i,
    {
        if x[i] != y[i] {
            proof {
                assert(code@.subrange(0, prefix@.len() as int)[i as int] == code@[i as int]);
            }
            return false;
        }
        i += 1;
    }
    proof {
        assert(prefix@ =~= code@.subrange(0, prefix@.len() as int));
    }
    true
}

/// Whether another code among `codes` is a prefix of `code`.
fn is_dominated(codes: &Vec<&str>, code: &str) -> (r: bool)
    requires
        all_valid(codes.deep_view()),
        valid_code(code@),
    ensures
        r == dominated(codes.deep_view(), code@),
{
    proof {
        lemma_valid_code_is_ascii(code@);
    }
    let mut j: usize = 0;
    while j < codes.len()
        invariant
            j <= codes.len(),
            code.is_ascii(),
            all_valid(codes.deep_view()),
            forall|k: int|
                #![trigger codes.deep_view()[k]]
                0 <= k < j ==> !(codes.deep_view()[k] != code@ && codes.deep_view()[k].is_prefix_of(
                    code@,
                )),
        decreases codes.len() - j,
    {
        let other = codes[j];
        proof {
            assert(codes.deep_view()[j as int] == other@);
            lemma_valid_code_is_ascii(other@);
        }
        if !same_code(other, code) && has_prefix(code, other) {
            return true;
        }
        j += 1;
    }
    false
}

/// How many of `codes` are children of `prefix`.
fn count_children(codes: &Vec<&str>, prefix: &str) -> (count: usize)
    requires
        all_valid(codes.deep_view()),
        valid_code(prefix@),
    ensures
        count == sibling_count(codes.deep_view(), prefix@),
{
    broadcast use is_ascii_spec_bytes;

    proof {
        lemma_valid_code_is_ascii(prefix@);
        assert(codes.deep_view().take(0) =~= Seq::<Seq<char>>::empty());
    }
    let mut count: usize = 0;
    let mut j: usize = 0;
    while j < codes.len()
        invariant
            j <= codes.len(),
            count <= j,
            prefix.is_ascii(),
            all_valid(codes.deep_view()),
            count == sibling_count(codes.deep_view().take(j as int), prefix@),
        decreases codes.len() - j,
    {
        let code = codes[j];
        proof {
            assert(codes.deep_view()[j as int] == code@);
            lemma_valid_code_is_ascii(code@);
            assert(code.is_ascii());
        }
        let len = code.as_bytes().len();
        let child = len >= 2 && same_code(code.substring_ascii(0, len - 1), prefix);
        proof {
            let upto = codes.deep_view().take(j + 1);
            assert(upto.drop_last() =~= codes.deep_view().take(j as int));
            assert(upto.last() == code@);
            assert(child == is_child(code@, prefix@));
            assert(sibling_count(upto, prefix@) == sibling_count(upto.drop_last(), prefix@)
                + if is_child(upto.last(), prefix@) {
                1nat
            } else {
                0nat
            });
        }
        if child {
            count += 1;
        }
        j += 1;
    }
    proof {
        assert(codes.deep_view().take(codes.len() as int) =~= codes.deep_view());
    }
    count
}

/// Whether one of `codes` equals `code`.
fn contains_code(codes: &Vec<&str>, code: &str) -> (r: bool)
    requires
        all_valid(codes.deep_view()),
        valid_code(code@),
    ensures
        r == codes.deep_view().contains(code@),
{
    proof {
        lemma_valid_code_is_ascii(code@);
    }
    let mut j: usize = 0;
    while j < codes.len()
        invariant
            j <= codes.len(),
            code.is_ascii(),
            all_valid(codes.deep_view()),
            forall|k: int| 0 <= k < j ==> #[trigger] codes.deep_view()[k] != code@,
        decreases codes.len() - j,
    {
        let other = codes[j];
        proof {
            assert(codes.deep_view()[j as int] == other@);
            lemma_valid_code_is_ascii(other@);
        }
        if same_code(other, code) {
            return true;
        }
        j += 1;
    }
    false
}

/// What stands for `code` after a pass over `codes`.
fn stands_for<'a>(codes: &Vec<&'a str>, threshold: u64, code: &'a str) -> (kept: &'a str)
    requires
        all_valid(codes.deep_view()),
        valid_code(code@),
    ensures
        kept@ == promoted(codes.deep_view(), threshold as nat, code@),
        valid_code(kept@),
{
    broadcast use is_ascii_spec_bytes;

    proof {
        lemma_valid_code_is_ascii(code@);
        assert(code.is_ascii());
    }
    let len = code.as_bytes().len();
    if len < 2 {
        return code;
    }
    let prefix = code.substring_ascii(0, len - 1);
    proof {
        assert(prefix@ == parent(code@));
        assert forall|k: int| 0 <= k < prefix@.len() implies is_symbol(#[trigger] prefix@[k]) by {
            assert(prefix@[k] == code@[k]);
        }
    }
    if count_children(codes, prefix) as u64 >= threshold {
        prefix
    } else {
        code
    }
}

/// One pass over `codes`.
fn compact<'a>(codes: &Vec<&'a str>, threshold: u64) -> (next: Vec<&'a str>)
    requires
        all_valid(codes.deep_view()),
    ensures
        next.deep_view() == compact_once(codes.deep_view(), threshold as nat),
        all_valid(next.deep_view()),
{
    broadcast use is_ascii_spec_bytes;

    let mut next: Vec<&'a str> = Vec::new();
    let mut i: usize = 0;
    proof {
        assert(next.deep_view() =~= Seq::<Seq<char>>::empty());
    }
    while i < codes.len()
        invariant
            i <= codes.len(),
            all_valid(codes.deep_view()),
            all_valid(next.deep_view()),
            next.deep_view() == compact_prefix(codes.deep_view(), threshold as nat, i as nat),
        decreases codes.len() - i,
    {
        let code = codes[i];
        let ghost before = next.deep_view();
        proof {
            assert(codes.deep_view()[i as int] == code@);
            assert(before == compact_prefix(codes.deep_view(), threshold as nat, i as nat));
        }
        if !is_dominated(codes, code) {
            let kept = stands_for(codes, threshold, code);
            if !contains_code(&next, kept) {
                next.push(kept);
                proof {
                    assert(next.deep_view() =~= before.push(kept@));
                }
            }
        }
        i += 1;
        proof {
            assert(codes.deep_view()[i - 1] == code@);
        }
    }
    next
}

/// Compacts `codes` in place: passes over them until a pass leaves their
/// number as it was.
///
/// One pass drops the codes that another code of the set is a prefix of,
/// puts the parent in the place of each code of two symbols or more that has
/// at least `threshold` children of its parent in the set, itself and equal
/// codes counted, and keeps the first of equal outcomes. The order of what
/// stays is the order in which it first came.
///
/// A code that holds a character outside the alphabet is refused, and
/// `codes` left as it was.
pub fn compress<'a>(codes: &mut Vec<&'a str>, threshold: u64) -> (r: Result<(), GeohashError>)
    ensures
        match r {
            Ok(_) => {
                &&& all_valid(old(codes).deep_view())
                &&& final(codes).deep_view() == compress_spec(
                    old(codes).deep_view(),
                    threshold as nat,
                )
                &&& all_valid(final(codes).deep_view())
            },
            Err(e) => e == GeohashError::InvalidSymbol && !all_valid(old(codes).deep_view())
                && final(codes)@ == old(codes)@,
        },
{
    let mut i: usize = 0;
    while i < codes.len()
        invariant
            i <= codes.len(),
            codes@ == old(codes)@,
            forall|j: int| 0 <= j < i ==> valid_code(#[trigger] codes.deep_view()[j]),
        decreases codes.len() - i,
    {
        if !is_valid_code(codes[i]) {
            proof {
                assert(!valid_code(codes.deep_view()[i as int]));
            }
            return Err(GeohashError::InvalidSymbol);
        }
        i += 1;
    }
    let ghost given = codes.deep_view();
    let mut is_compact = false;
    while !is_compact
        invariant
            all_valid(codes.deep_view()),
            is_compact ==> codes.deep_view() == compress_spec(given, threshold as nat),
            !is_compact ==> compress_spec(codes.deep_view(), threshold as nat) == compress_spec(
                given,
                threshold as nat,
            ),
        decreases
                (if is_compact {
                    0
                } else {
                    codes.len() + 1
                }),
    {
        let n = codes.len();
        let next = compact(codes, threshold);
        proof {
            lemma_compact_once_len(codes.deep_view(), threshold as nat);
        }
        *codes = next;
        is_compact = n == codes.len();
    }
    Ok(())
}

} // verus!
