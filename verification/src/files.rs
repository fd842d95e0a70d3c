//! The files that a pattern stands for.

use vstd::prelude::*;
use vstd::string::StringExecFns;
use crate::kind::texts;

verus! {

/// Whether a text comes before another one or is equal to it: the first character in
/// which they differ decides, by its code point, and a text comes before its extensions.
pub open spec fn not_after(a: Seq<char>, b: Seq<char>) -> bool
    decreases a.len(),
{
    if a.len() == 0 {
        true
    } else if b.len() == 0 {
        false
    } else if a[0] != b[0] {
        (a[0] as int) < (b[0] as int)
    } else {
        not_after(a.drop_first(), b.drop_first())
    }
}

/// Whether texts stand in order.
pub open spec fn in_order(list: Seq<Seq<char>>) -> bool {
    forall|i: int, j: int|
        0 <= i <= j < list.len() ==> not_after(#[trigger] list[i], #[trigger] list[j])
}

/// Calls `sort` of the standard library on strings.
///
/// The strings are the same as before, each as often as before, and stand in order.
/// Strings are compared byte by byte, which for UTF-8 is the order of the code points.
#[verifier::external_body]
fn sort_texts(list: &mut Vec<String>)
    ensures
        texts(final(list)@).to_multiset() == texts(old(list)@).to_multiset(),
        in_order(texts(final(list)@)),
{
    list.sort()
}

/// The message for a pattern that no file matches.
pub open spec fn no_match_text(pattern: Seq<char>) -> Seq<char> {
    "aucun fichier ne correspond au motif '"@ + pattern + "'"@
}

/// The files that match a pattern, in order; an error where there are none.
pub fn expand_glob(pattern: &str, matches: Vec<String>) -> (r: Result<Vec<String>, String>)
    ensures
        match r {
            Ok(paths) => matches@.len() > 0 && in_order(texts(paths@)) && texts(
                paths@,
            ).to_multiset() == texts(matches@).to_multiset() && paths@.len() == matches@.len(),
            Err(message) => matches@.len() == 0 && message@ == no_match_text(pattern@),
        },
{
    let mut paths: Vec<String> = matches;
    sort_texts(&mut paths);
    proof {
        broadcast use vstd::seq_lib::group_to_multiset_ensures;

        assert(texts(paths@).to_multiset().len() == texts(paths@).len());
        assert(texts(matches@).to_multiset().len() == texts(matches@).len());
    }
    if paths.len() == 0 {
        let mut message: String = String::new();
        message.append("aucun fichier ne correspond au motif '");
        message.append(pattern);
        message.append("'");
        assert(message@ =~= no_match_text(pattern@));
        return Err(message);
    }
    Ok(paths)
}

/// Every text is in order with itself.
proof fn lemma_reflexive(a: Seq<char>)
    ensures
        not_after(a, a),
    decreases a.len(),
{
    if a.len() > 0 {
        lemma_reflexive(a.drop_first());
    }
}

/// Of two texts one comes before the other or they are equal.
proof fn lemma_connected(a: Seq<char>, b: Seq<char>)
    ensures
        not_after(a, b) || not_after(b, a),
        not_after(a, b) && not_after(b, a) ==> a == b,
    decreases a.len(),
{
    if a.len() > 0 && b.len() > 0 && a[0] == b[0] {
        lemma_connected(a.drop_first(), b.drop_first());
        assert(a =~= seq![a[0]] + a.drop_first());
        assert(b =~= seq![b[0]] + b.drop_first());
    } else if a.len() == 0 && b.len() == 0 {
        assert(a =~= b);
    }
}

/// What comes before a text comes before what follows the text.
proof fn lemma_transitive(a: Seq<char>, b: Seq<char>, c: Seq<char>)
    requires
        not_after(a, b),
        not_after(b, c),
    ensures
        not_after(a, c),
    decreases a.len(),
{
    if a.len() > 0 && a[0] == b[0] && b[0] == c[0] {
        lemma_transitive(a.drop_first(), b.drop_first(), c.drop_first());
    }
}

/// Two lists in order that hold the same texts are equal: the order in which matching
/// files are found does not matter.
pub proof fn lemma_order_is_unique(a: Seq<Seq<char>>, b: Seq<Seq<char>>)
    requires
        a.to_multiset() == b.to_multiset(),
        in_order(a),
        in_order(b),
    ensures
        a == b,
{
    let leq = |x: Seq<char>, y: Seq<char>| not_after(x, y);
    assert(vstd::relations::total_ordering(leq)) by {
        assert forall|x: Seq<char>| #[trigger] leq(x, x) by {
            lemma_reflexive(x);
        }
        assert forall|x: Seq<char>, y: Seq<char>| #[trigger] leq(x, y) || #[trigger] leq(y, x) by {
            lemma_connected(x, y);
        }
        assert forall|x: Seq<char>, y: Seq<char>| #[trigger] leq(x, y) && #[trigger] leq(
            y,
            x,
        ) implies x == y by {
            lemma_connected(x, y);
        }
        assert forall|x: Seq<char>, y: Seq<char>, z: Seq<char>|
            #[trigger] leq(x, y) && #[trigger] leq(y, z) implies leq(x, z) by {
            lemma_transitive(x, y, z);
        }
    }
    vstd::seq_lib::lemma_sorted_unique(a, b, leq);
}

/// Texts are ordered by the first character in which they differ, by its code point; a
/// text comes before the texts that it is the start of.
pub proof fn lemma_first_difference_decides(
    start: Seq<char>,
    x: char,
    y: char,
    a: Seq<char>,
    b: Seq<char>,
)
    ensures
        x != y ==> (not_after(start.push(x) + a, start.push(y) + b) <==> (x as int) < (y as int)),
        not_after(start, start + a),
        a.len() > 0 ==> !not_after(start + a, start),
    decreases start.len(),
{
    let left = start.push(x) + a;
    let right = start.push(y) + b;
    if start.len() == 0 {
        assert(left[0] == x && right[0] == y);
    } else {
        let rest = start.drop_first();
        lemma_first_difference_decides(rest, x, y, a, b);
        assert(left[0] == start[0] && right[0] == start[0]);
        assert(left.drop_first() =~= rest.push(x) + a);
        assert(right.drop_first() =~= rest.push(y) + b);
        assert((start + a)[0] == start[0]);
        assert((start + a).drop_first() =~= rest + a);
    }
}

/// Files stand in order where no file comes before the one in front of it.
pub proof fn lemma_in_order_pairwise(list: Seq<Seq<char>>)
    ensures
        in_order(list) <==> forall|i: int, j: int|
            0 <= i < j < list.len() ==> not_after(#[trigger] list[i], #[trigger] list[j]),
{
    if forall|i: int, j: int|
        0 <= i < j < list.len() ==> not_after(#[trigger] list[i], #[trigger] list[j]) {
        assert forall|i: int, j: int| 0 <= i <= j < list.len() implies not_after(
            #[trigger] list[i],
            #[trigger] list[j],
        ) by {
            lemma_reflexive(list[i]);
        }
    }
}

/// The message for a pattern without a match names the pattern in quotes.
pub proof fn lemma_message_names_the_pattern(pattern: Seq<char>)
    ensures
        ({
            let message = no_match_text(pattern);
            let lead = "aucun fichier ne correspond au motif '"@;
            &&& message.len() == lead.len() + pattern.len() + 1
            &&& message.take(lead.len() as int) == lead
            &&& message.skip(lead.len() as int) == pattern.push('\'')
        }),
{
    reveal_strlit("'");
    let lead = "aucun fichier ne correspond au motif '"@;
    let message = no_match_text(pattern);
    assert(message.take(lead.len() as int) =~= lead);
    assert(message.skip(lead.len() as int) =~= pattern.push('\''));
}

} // verus!
