use vstd::prelude::*;

use crate::seqs::{count_of, lemma_count_of_concat, lemma_count_of_push, lemma_count_of_swap_remove, lemma_count_of_positive};
use crate::subscription::SubscriptionId;
use crate::topic::{full_wildcard_token, single_wildcard_token, split_dots, split_tokens, strings_view};

verus! {

/// A literal child of a trie node, keyed by its token.
struct TrieChild {
    token: String,
    node: TrieNode,
}

/// A trie node for hierarchical topic matching.
///
/// Supports exact matching, single-token wildcards (`*`), and
/// suffix wildcards (`>` = match one or more remaining tokens).
struct TrieNode {
    /// Children keyed by literal token value (tokens are distinct).
    children: Vec<TrieChild>,
    /// Child for single-token wildcard `*`.
    wildcard: Option<Box<TrieNode>>,
    /// Subscriptions that used `>` at this level (match everything below).
    full_wildcard_subs: Vec<SubscriptionId>,
    /// Subscriptions that terminate exactly at this node.
    subscriptions: Vec<SubscriptionId>,
}

/// A trie for matching publish topics against subscription patterns.
///
/// Insert subscription patterns (which may contain `*` and `>`),
/// then query with concrete topics to find all matching subscription ids.
pub struct TopicTrie {
    root: TrieNode,
}

/// Tokens that name a literal child (neither wildcard).
pub open spec fn is_literal_token(t: Seq<char>) -> bool {
    t != full_wildcard_token() && t != single_wildcard_token()
}

/// The stored form of a subscription pattern: its tokens up to and including
/// the first `>`, since nothing after a `>` is looked at.
pub open spec fn pattern_key(p: Seq<Seq<char>>) -> Seq<Seq<char>>
    decreases p.len(),
{
    if p.len() == 0 {
        p
    } else if p[0] == full_wildcard_token() {
        seq![full_wildcard_token()]
    } else {
        seq![p[0]] + pattern_key(p.drop_first())
    }
}

spec fn find_child(children: Seq<TrieChild>, tok: Seq<char>) -> Option<TrieNode>
    decreases children.len(),
{
    if children.len() == 0 {
        None
    } else if children.last().token@ == tok {
        Some(children.last().node)
    } else {
        find_child(children.drop_last(), tok)
    }
}

spec fn distinct_tokens(children: Seq<TrieChild>) -> bool {
    forall|i: int, j: int|
        0 <= i < j < children.len() ==> (#[trigger] children[i]).token@ != (#[trigger] children[j]).token@
}

spec fn node_wf(node: TrieNode) -> bool
    decreases node,
{
    &&& distinct_tokens(node.children@)
    &&& forall|i: int|
        0 <= i < node.children@.len() ==> is_literal_token((#[trigger] node.children@[i]).token@)
    &&& forall|i: int|
        0 <= i < node.children@.len() ==> node_wf(#[trigger] node.children@[i].node)
    &&& match node.wildcard {
        Some(w) => node_wf(*w),
        None => true,
    }
}

/// How many times `sid` is registered at this node under pattern `p`.
spec fn node_count(node: TrieNode, p: Seq<Seq<char>>, sid: SubscriptionId) -> nat
    decreases p.len(),
{
    if p.len() == 0 {
        count_of(node.subscriptions@, sid)
    } else if p[0] == full_wildcard_token() {
        count_of(node.full_wildcard_subs@, sid)
    } else if p[0] == single_wildcard_token() {
        match node.wildcard {
            Some(w) => node_count(*w, p.drop_first(), sid),
            None => 0,
        }
    } else {
        match find_child(node.children@, p[0]) {
            Some(c) => node_count(c, p.drop_first(), sid),
            None => 0,
        }
    }
}

spec fn node_is_empty(node: TrieNode) -> bool {
    &&& node.children@.len() == 0
    &&& node.wildcard is None
    &&& node.full_wildcard_subs@.len() == 0
    &&& node.subscriptions@.len() == 0
}

proof fn lemma_find_child_none(children: Seq<TrieChild>, tok: Seq<char>)
    requires
        forall|i: int| 0 <= i < children.len() ==> (#[trigger] children[i]).token@ != tok,
    ensures
        find_child(children, tok) is None,
    decreases children.len(),
{
    if children.len() > 0 {
        assert(children.last() == children[children.len() - 1]);
        lemma_find_child_none(children.drop_last(), tok);
    }
}

proof fn lemma_find_child_at(children: Seq<TrieChild>, i: int)
    requires
        distinct_tokens(children),
        0 <= i < children.len(),
    ensures
        find_child(children, children[i].token@) == Some(children[i].node),
    decreases children.len(),
{
    if i < children.len() - 1 {
        assert(children.last() == children[children.len() - 1]);
        assert(children.drop_last()[i] == children[i]);
        lemma_find_child_at(children.drop_last(), i);
    }
}

proof fn lemma_find_child_some(children: Seq<TrieChild>, tok: Seq<char>)
    requires
        find_child(children, tok) is Some,
    ensures
        exists|i: int| 0 <= i < children.len() && (#[trigger] children[i]).token@ == tok,
    decreases children.len(),
{
    if children.last().token@ == tok {
        assert(children[children.len() - 1].token@ == tok);
    } else {
        lemma_find_child_some(children.drop_last(), tok);
        let i = choose|i: int|
            0 <= i < children.drop_last().len() && (#[trigger] children.drop_last()[i]).token@ == tok;
        assert(children[i] == children.drop_last()[i]);
    }
}

/// Looking up a token in `children` after position `i` is replaced by a child
/// with the same token gives the new child for that token and the old answer
/// for every other token.
proof fn lemma_find_child_update(children: Seq<TrieChild>, i: int, c: TrieChild, tok: Seq<char>)
    requires
        distinct_tokens(children),
        0 <= i < children.len(),
        c.token@ == children[i].token@,
    ensures
        distinct_tokens(children.update(i, c)),
        find_child(children.update(i, c), tok) == if tok == c.token@ {
            Some(c.node)
        } else {
            find_child(children, tok)
        },
{
    let u = children.update(i, c);
    assert forall|a: int, b: int| 0 <= a < b < u.len() implies (#[trigger] u[a]).token@ != (
    #[trigger] u[b]).token@ by {
        assert(children[a].token@ != children[b].token@);
    }
    if tok == c.token@ {
        lemma_find_child_at(u, i);
    } else {
        lemma_find_child_update_other(children, i, c, tok);
    }
}

proof fn lemma_find_child_update_other(
    children: Seq<TrieChild>,
    i: int,
    c: TrieChild,
    tok: Seq<char>,
)
    requires
        0 <= i < children.len(),
        c.token@ == children[i].token@,
        tok != c.token@,
    ensures
        find_child(children.update(i, c), tok) == find_child(children, tok),
    decreases children.len(),
{
    let u = children.update(i, c);
    if i == children.len() - 1 {
        assert(u.drop_last() =~= children.drop_last());
    } else {
        assert(u.drop_last() =~= children.drop_last().update(i, c));
        lemma_find_child_update_other(children.drop_last(), i, c, tok);
    }
}

proof fn lemma_find_child_push(children: Seq<TrieChild>, c: TrieChild, tok: Seq<char>)
    requires
        distinct_tokens(children),
        forall|i: int| 0 <= i < children.len() ==> (#[trigger] children[i]).token@ != c.token@,
    ensures
        distinct_tokens(children.push(c)),
        find_child(children.push(c), tok) == if tok == c.token@ {
            Some(c.node)
        } else {
            find_child(children, tok)
        },
{
    let u = children.push(c);
    assert(u.drop_last() =~= children);
    assert forall|a: int, b: int| 0 <= a < b < u.len() implies (#[trigger] u[a]).token@ != (
    #[trigger] u[b]).token@ by {
        if b < children.len() {
            assert(children[a].token@ != children[b].token@);
        }
    }
}

proof fn lemma_find_child_remove(children: Seq<TrieChild>, i: int, tok: Seq<char>)
    requires
        distinct_tokens(children),
        0 <= i < children.len(),
    ensures
        distinct_tokens(children.remove(i)),
        find_child(children.remove(i), tok) == if tok == children[i].token@ {
            None
        } else {
            find_child(children, tok)
        },
    decreases children.len(),
{
    let u = children.remove(i);
    assert forall|a: int, b: int| 0 <= a < b < u.len() implies (#[trigger] u[a]).token@ != (
    #[trigger] u[b]).token@ by {
        let a2 = if a < i { a } else { a + 1 };
        let b2 = if b < i { b } else { b + 1 };
        assert(u[a] == children[a2]);
        assert(u[b] == children[b2]);
        assert(children[a2].token@ != children[b2].token@);
    }
    if tok == children[i].token@ {
        assert forall|k: int| 0 <= k < u.len() implies (#[trigger] u[k]).token@ != tok by {
            let k2 = if k < i { k } else { k + 1 };
            assert(u[k] == children[k2]);
            assert(children[k2].token@ != children[i].token@);
        }
        lemma_find_child_none(u, tok);
    } else {
        lemma_find_child_remove_other(children, i, tok);
    }
}

proof fn lemma_find_child_remove_other(children: Seq<TrieChild>, i: int, tok: Seq<char>)
    requires
        0 <= i < children.len(),
        tok != children[i].token@,
    ensures
        find_child(children.remove(i), tok) == find_child(children, tok),
    decreases children.len(),
{
    let u = children.remove(i);
    if i == children.len() - 1 {
        assert(u =~= children.drop_last());
    } else {
        assert(u.drop_last() =~= children.drop_last().remove(i));
        assert(u.last() == children.last());
        lemma_find_child_remove_other(children.drop_last(), i, tok);
    }
}

proof fn lemma_empty_node_counts(node: TrieNode, p: Seq<Seq<char>>, sid: SubscriptionId)
    requires
        node_is_empty(node),
    ensures
        node_count(node, p, sid) == 0,
{
    if p.len() > 0 && p[0] != full_wildcard_token() && p[0] != single_wildcard_token() {
        lemma_find_child_none(node.children@, p[0]);
    }
}

/// Two patterns are stored under the same key exactly when their first
/// tokens agree and, unless that token is `>`, the rest agree too.
proof fn lemma_key_cons(p: Seq<Seq<char>>, t: Seq<Seq<char>>)
    ensures
        t.len() == 0 ==> (pattern_key(p) == pattern_key(t) <==> p.len() == 0),
        t.len() > 0 && t[0] == full_wildcard_token() ==> (pattern_key(p) == pattern_key(t) <==> (
        p.len() > 0 && p[0] == full_wildcard_token())),
        t.len() > 0 && t[0] != full_wildcard_token() ==> (pattern_key(p) == pattern_key(t) <==> (
        p.len() > 0 && p[0] == t[0] && pattern_key(p.drop_first()) == pattern_key(
            t.drop_first(),
        ))),
{
    if t.len() == 0 {
        if p.len() > 0 {
            assert(pattern_key(p).len() > 0);
        } else {
            assert(pattern_key(p) =~= pattern_key(t));
        }
    } else if t[0] == full_wildcard_token() {
        if p.len() > 0 && p[0] != full_wildcard_token() {
            assert(pattern_key(p)[0] == p[0]);
        }
    } else {
        let kt = pattern_key(t);
        assert(kt == seq![t[0]] + pattern_key(t.drop_first()));
        assert(kt[0] == t[0]);
        if p.len() > 0 {
            let kp = pattern_key(p);
            if p[0] == full_wildcard_token() {
                assert(kp[0] == full_wildcard_token());
            } else {
                assert(kp == seq![p[0]] + pattern_key(p.drop_first()));
                if kp == kt {
                    assert(kp[0] == p[0]);
                    assert(pattern_key(p.drop_first()) =~= kp.drop_first());
                    assert(pattern_key(t.drop_first()) =~= kt.drop_first());
                }
                if p[0] == t[0] && pattern_key(p.drop_first()) == pattern_key(t.drop_first()) {
                    assert(kp =~= kt);
                }
            }
        }
    }
}

proof fn lemma_find_child_absent(children: Seq<TrieChild>, tok: Seq<char>)
    requires
        distinct_tokens(children),
        find_child(children, tok) is None,
    ensures
        forall|i: int| 0 <= i < children.len() ==> (#[trigger] children[i]).token@ != tok,
{
    assert forall|i: int| 0 <= i < children.len() implies (#[trigger] children[i]).token@ != tok by {
        if children[i].token@ == tok {
            lemma_find_child_at(children, i);
        }
    }
}

/// The amount by which registering `sid` under the tokens `t` raises the
/// count of pattern `p` for subscription `s`.
pub open spec fn key_hit(
    p: Seq<Seq<char>>,
    s: SubscriptionId,
    t: Seq<Seq<char>>,
    sid: SubscriptionId,
) -> nat {
    if s == sid && pattern_key(p) == pattern_key(t) {
        1
    } else {
        0
    }
}

fn insert_at(node: &mut TrieNode, toks: &Vec<String>, i: usize, sid: SubscriptionId)
    requires
        node_wf(*old(node)),
        i <= toks@.len(),
    ensures
        node_wf(*final(node)),
        forall|p: Seq<Seq<char>>, s: SubscriptionId|
            #![trigger node_count(*final(node), p, s)]
            node_count(*final(node), p, s) == node_count(*old(node), p, s) + key_hit(
                p,
                s,
                strings_view(toks@).subrange(i as int, toks@.len() as int),
                sid,
            ),
    decreases toks@.len() - i,
{
    let ghost t = strings_view(toks@).subrange(i as int, toks@.len() as int);
    let ghost old_node = *node;
    if i == toks.len() {
        node.subscriptions.push(sid);
        proof {
            assert forall|p: Seq<Seq<char>>, s: SubscriptionId|
                #![trigger node_count(*node, p, s)]
                node_count(*node, p, s) == node_count(old_node, p, s) + key_hit(p, s, t, sid) by {
                lemma_key_cons(p, t);
                if p.len() == 0 {
                    lemma_count_of_push(old_node.subscriptions@, sid, s);
                }
            }
        }
        return;
    }
    let tok = toks[i].as_str();
    proof {
        reveal_strlit(">");
        reveal_strlit("*");
        assert(">"@ =~= full_wildcard_token());
        assert("*"@ =~= single_wildcard_token());
        assert(t[0] == tok@);
        assert(t.drop_first() =~= strings_view(toks@).subrange(i + 1, toks@.len() as int));
    }
    if str_eq(tok, ">") {
        node.full_wildcard_subs.push(sid);
        proof {
            assert forall|p: Seq<Seq<char>>, s: SubscriptionId|
                #![trigger node_count(*node, p, s)]
                node_count(*node, p, s) == node_count(old_node, p, s) + key_hit(p, s, t, sid) by {
                lemma_key_cons(p, t);
                if p.len() > 0 && p[0] == full_wildcard_token() {
                    lemma_count_of_push(old_node.full_wildcard_subs@, sid, s);
                }
            }
        }
        return;
    }
    if str_eq(tok, "*") {
        let mut w = match node.wildcard.take() {
            Some(b) => b,
            None => Box::new(TrieNode::new()),
        };
        let ghost w_old = *w;
        proof {
            if old_node.wildcard is None {
                assert forall|q: Seq<Seq<char>>, s: SubscriptionId| node_count(w_old, q, s) == 0 by {
                    lemma_empty_node_counts(w_old, q, s);
                }
            }
        }
        insert_at(&mut *w, toks, i + 1, sid);
        node.wildcard = Some(w);
        proof {
            assert forall|p: Seq<Seq<char>>, s: SubscriptionId|
                #![trigger node_count(*node, p, s)]
                node_count(*node, p, s) == node_count(old_node, p, s) + key_hit(p, s, t, sid) by {
                lemma_key_cons(p, t);
                if p.len() > 0 && p[0] == single_wildcard_token() {
                    assert(node_count(*w, p.drop_first(), s) == node_count(
                        w_old,
                        p.drop_first(),
                        s,
                    ) + key_hit(p.drop_first(), s, t.drop_first(), sid));
                }
            }
        }
        return;
    }
    assert(is_literal_token(tok@));
    match node.find_child_index(tok) {
        Some(idx) => {
            let mut child = node.children.remove(idx);
            let ghost c_old = child;
            insert_at(&mut child.node, toks, i + 1, sid);
            let ghost c_new = child;
            node.children.insert(idx, child);
            proof {
                assert(node.children@ =~= old_node.children@.update(idx as int, c_new));
                lemma_find_child_update(old_node.children@, idx as int, c_new, tok@);
                assert forall|k: int| 0 <= k < node.children@.len() implies node_wf(
                    #[trigger] node.children@[k].node,
                ) && is_literal_token(node.children@[k].token@) by {
                    if k != idx {
                        assert(node.children@[k] == old_node.children@[k]);
                    }
                }
                assert forall|p: Seq<Seq<char>>, s: SubscriptionId|
                    #![trigger node_count(*node, p, s)]
                    node_count(*node, p, s) == node_count(old_node, p, s) + key_hit(
                        p,
                        s,
                        t,
                        sid,
                    ) by {
                    lemma_key_cons(p, t);
                    if p.len() > 0 && p[0] != full_wildcard_token() && p[0]
                        != single_wildcard_token() {
                        lemma_find_child_update(old_node.children@, idx as int, c_new, p[0]);
                        if p[0] == tok@ {
                            assert(node_count(c_new.node, p.drop_first(), s) == node_count(
                                c_old.node,
                                p.drop_first(),
                                s,
                            ) + key_hit(p.drop_first(), s, t.drop_first(), sid));
                        }
                    }
                }
            }
        },
        None => {
            let mut fresh = TrieNode::new();
            let ghost f_old = fresh;
            proof {
                assert forall|q: Seq<Seq<char>>, s: SubscriptionId| node_count(f_old, q, s) == 0 by {
                    lemma_empty_node_counts(f_old, q, s);
                }
                lemma_find_child_absent(old_node.children@, tok@);
            }
            insert_at(&mut fresh, toks, i + 1, sid);
            let c_new = TrieChild { token: tok.to_owned(), node: fresh };
            node.children.push(c_new);
            proof {
                lemma_find_child_push(old_node.children@, c_new, tok@);
                assert forall|k: int| 0 <= k < node.children@.len() implies node_wf(
                    #[trigger] node.children@[k].node,
                ) && is_literal_token(node.children@[k].token@) by {
                    if k < old_node.children@.len() {
                        assert(node.children@[k] == old_node.children@[k]);
                    }
                }
                assert forall|p: Seq<Seq<char>>, s: SubscriptionId|
                    #![trigger node_count(*node, p, s)]
                    node_count(*node, p, s) == node_count(old_node, p, s) + key_hit(
                        p,
                        s,
                        t,
                        sid,
                    ) by {
                    lemma_key_cons(p, t);
                    if p.len() > 0 && p[0] != full_wildcard_token() && p[0]
                        != single_wildcard_token() {
                        lemma_find_child_push(old_node.children@, c_new, p[0]);
                        if p[0] == tok@ {
                            assert(node_count(c_new.node, p.drop_first(), s) == node_count(
                                f_old,
                                p.drop_first(),
                                s,
                            ) + key_hit(p.drop_first(), s, t.drop_first(), sid));
                        }
                    }
                }
            }
        },
    }
}

/// Removes one occurrence of `sid` from `v`, if there is one; returns whether
/// there was.
fn remove_from_vec(v: &mut Vec<SubscriptionId>, sid: SubscriptionId) -> (r: bool)
    ensures
        r == (count_of(old(v)@, sid) > 0),
        !r ==> *final(v) == *old(v),
        forall|s: SubscriptionId|
            #![trigger count_of(final(v)@, s)]
            count_of(final(v)@, s) + (if r && s == sid { 1nat } else { 0nat }) == count_of(
                old(v)@,
                s,
            ),
{
    let ghost v_old = v@;
    let mut i: usize = 0;
    while i < v.len()
        invariant
            v@ == v_old,
            v_old == old(v)@,
            *v == *old(v),
            i <= v@.len(),
            forall|k: int| 0 <= k < i ==> v@[k] != sid,
        decreases v@.len() - i,
    {
        if v[i] == sid {
            v.swap_remove(i);
            proof {
                assert(v_old[i as int] == sid);
                lemma_count_of_positive(v_old, sid);
                assert forall|s: SubscriptionId| #![trigger count_of(v@, s)]
                    count_of(v@, s) + (if s == sid { 1nat } else { 0nat }) == count_of(v_old, s) by {
                    lemma_count_of_swap_remove(v_old, i as int, s);
                }
            }
            return true;
        }
        i = i + 1;
    }
    proof {
        lemma_count_of_positive(v_old, sid);
    }
    false
}

/// The amount by which removing one registration of `sid` under the tokens
/// `t` lowers the count of pattern `p` for subscription `s`, when `removed`.
pub open spec fn removal_hit(
    removed: bool,
    p: Seq<Seq<char>>,
    s: SubscriptionId,
    t: Seq<Seq<char>>,
    sid: SubscriptionId,
) -> nat {
    if removed {
        key_hit(p, s, t, sid)
    } else {
        0
    }
}

/// Whether `v` holds `sid`.
fn holds_id(v: &Vec<SubscriptionId>, sid: SubscriptionId) -> (r: bool)
    ensures
        r == (count_of(v@, sid) > 0),
{
    proof {
        lemma_count_of_positive(v@, sid);
    }
    let mut i: usize = 0;
    while i < v.len()
        invariant
            i <= v@.len(),
            forall|k: int| 0 <= k < i ==> v@[k] != sid,
        decreases v@.len() - i,
    {
        if v[i] == sid {
            proof {
                assert(v@[i as int] == sid);
                lemma_count_of_positive(v@, sid);
            }
            return true;
        }
        i = i + 1;
    }
    false
}

/// Whether `sid` is registered at `node` under the tokens `toks[i..]`.
fn registered_at(node: &TrieNode, toks: &Vec<String>, i: usize, sid: SubscriptionId) -> (r: bool)
    requires
        node_wf(*node),
        i <= toks@.len(),
    ensures
        r == (node_count(
            *node,
            strings_view(toks@).subrange(i as int, toks@.len() as int),
            sid,
        ) > 0),
    decreases toks@.len() - i,
{
    let ghost t = strings_view(toks@).subrange(i as int, toks@.len() as int);
    if i == toks.len() {
        return holds_id(&node.subscriptions, sid);
    }
    let tok = toks[i].as_str();
    proof {
        reveal_strlit(">");
        reveal_strlit("*");
        assert(">"@ =~= full_wildcard_token());
        assert("*"@ =~= single_wildcard_token());
        assert(t[0] == tok@);
        assert(t.drop_first() =~= strings_view(toks@).subrange(i + 1, toks@.len() as int));
    }
    if str_eq(tok, ">") {
        return holds_id(&node.full_wildcard_subs, sid);
    }
    if str_eq(tok, "*") {
        return match &node.wildcard {
            Some(w) => registered_at(w, toks, i + 1, sid),
            None => false,
        };
    }
    match node.find_child_index(tok) {
        None => false,
        Some(idx) => registered_at(&node.children[idx].node, toks, i + 1, sid),
    }
}

fn remove_at(node: &mut TrieNode, toks: &Vec<String>, i: usize, sid: SubscriptionId) -> (r: bool)
    requires
        node_wf(*old(node)),
        i <= toks@.len(),
    ensures
        node_wf(*final(node)),
        r == (node_count(
            *old(node),
            strings_view(toks@).subrange(i as int, toks@.len() as int),
            sid,
        ) > 0),
        forall|p: Seq<Seq<char>>, s: SubscriptionId|
            #![trigger node_count(*final(node), p, s)]
            node_count(*final(node), p, s) + removal_hit(
                r,
                p,
                s,
                strings_view(toks@).subrange(i as int, toks@.len() as int),
                sid,
            ) == node_count(*old(node), p, s),
    decreases toks@.len() - i,
{
    let ghost t = strings_view(toks@).subrange(i as int, toks@.len() as int);
    let ghost old_node = *node;
    if i == toks.len() {
        let r = remove_from_vec(&mut node.subscriptions, sid);
        proof {
            assert forall|p: Seq<Seq<char>>, s: SubscriptionId|
                #![trigger node_count(*node, p, s)]
                node_count(*node, p, s) + removal_hit(r, p, s, t, sid) == node_count(
                    old_node,
                    p,
                    s,
                ) by {
                lemma_key_cons(p, t);
                if p.len() == 0 {
                    assert(count_of(node.subscriptions@, s) + (if r && s == sid {
                        1nat
                    } else {
                        0nat
                    }) == count_of(old_node.subscriptions@, s));
                }
            }
        }
        return r;
    }
    let tok = toks[i].as_str();
    proof {
        reveal_strlit(">");
        reveal_strlit("*");
        assert(">"@ =~= full_wildcard_token());
        assert("*"@ =~= single_wildcard_token());
        assert(t[0] == tok@);
        assert(t.drop_first() =~= strings_view(toks@).subrange(i + 1, toks@.len() as int));
    }
    if str_eq(tok, ">") {
        let r = remove_from_vec(&mut node.full_wildcard_subs, sid);
        proof {
            assert forall|p: Seq<Seq<char>>, s: SubscriptionId|
                #![trigger node_count(*node, p, s)]
                node_count(*node, p, s) + removal_hit(r, p, s, t, sid) == node_count(
                    old_node,
                    p,
                    s,
                ) by {
                lemma_key_cons(p, t);
                if p.len() > 0 && p[0] == full_wildcard_token() {
                    assert(count_of(node.full_wildcard_subs@, s) + (if r && s == sid {
                        1nat
                    } else {
                        0nat
                    }) == count_of(old_node.full_wildcard_subs@, s));
                }
            }
        }
        return r;
    }
    if str_eq(tok, "*") {
        let mut w = match node.wildcard.take() {
            Some(b) => b,
            None => {
                return false;
            },
        };
        let ghost w_old = *w;
        let r = remove_at(&mut *w, toks, i + 1, sid);
        let ghost w_new = *w;
        if r && w.is_empty() {
            proof {
                assert forall|q: Seq<Seq<char>>, s: SubscriptionId| node_count(w_new, q, s) == 0 by {
                    lemma_empty_node_counts(w_new, q, s);
                }
            }
        } else {
            node.wildcard = Some(w);
        }
        proof {
            assert forall|p: Seq<Seq<char>>, s: SubscriptionId|
                #![trigger node_count(*node, p, s)]
                node_count(*node, p, s) + removal_hit(r, p, s, t, sid) == node_count(
                    old_node,
                    p,
                    s,
                ) by {
                lemma_key_cons(p, t);
                if p.len() > 0 && p[0] == single_wildcard_token() {
                    assert(node_count(w_new, p.drop_first(), s) + removal_hit(
                        r,
                        p.drop_first(),
                        s,
                        t.drop_first(),
                        sid,
                    ) == node_count(w_old, p.drop_first(), s));
                }
            }
        }
        return r;
    }
    assert(is_literal_token(tok@));
    match node.find_child_index(tok) {
        None => false,
        Some(idx) => {
            let mut child = node.children.remove(idx);
            let ghost c_old = child;
            let r = remove_at(&mut child.node, toks, i + 1, sid);
            let ghost c_new = child;
            if r && child.node.is_empty() {
                proof {
                    assert forall|q: Seq<Seq<char>>, s: SubscriptionId|
                        node_count(c_new.node, q, s) == 0 by {
                        lemma_empty_node_counts(c_new.node, q, s);
                    }
                    lemma_find_child_remove(old_node.children@, idx as int, tok@);
                    assert forall|k: int| 0 <= k < node.children@.len() implies node_wf(
                        #[trigger] node.children@[k].node,
                    ) && is_literal_token(node.children@[k].token@) by {
                        let k2 = if k < idx { k } else { k + 1 };
                        assert(node.children@[k] == old_node.children@[k2]);
                    }
                    assert forall|p: Seq<Seq<char>>, s: SubscriptionId|
                        #![trigger node_count(*node, p, s)]
                        node_count(*node, p, s) + removal_hit(r, p, s, t, sid) == node_count(
                            old_node,
                            p,
                            s,
                        ) by {
                        lemma_key_cons(p, t);
                        if p.len() > 0 && p[0] != full_wildcard_token() && p[0]
                            != single_wildcard_token() {
                            lemma_find_child_remove(old_node.children@, idx as int, p[0]);
                            if p[0] == tok@ {
                                assert(node_count(c_new.node, p.drop_first(), s) + removal_hit(
                                    r,
                                    p.drop_first(),
                                    s,
                                    t.drop_first(),
                                    sid,
                                ) == node_count(c_old.node, p.drop_first(), s));
                            }
                        }
                    }
                }
            } else {
                node.children.insert(idx, child);
                proof {
                    assert(node.children@ =~= old_node.children@.update(idx as int, c_new));
                    lemma_find_child_update(old_node.children@, idx as int, c_new, tok@);
                    assert forall|k: int| 0 <= k < node.children@.len() implies node_wf(
                        #[trigger] node.children@[k].node,
                    ) && is_literal_token(node.children@[k].token@) by {
                        if k != idx {
                            assert(node.children@[k] == old_node.children@[k]);
                        }
                    }
                    assert forall|p: Seq<Seq<char>>, s: SubscriptionId|
                        #![trigger node_count(*node, p, s)]
                        node_count(*node, p, s) + removal_hit(r, p, s, t, sid) == node_count(
                            old_node,
                            p,
                            s,
                        ) by {
                        lemma_key_cons(p, t);
                        if p.len() > 0 && p[0] != full_wildcard_token() && p[0]
                            != single_wildcard_token() {
                            lemma_find_child_update(old_node.children@, idx as int, c_new, p[0]);
                            if p[0] == tok@ {
                                assert(node_count(c_new.node, p.drop_first(), s) + removal_hit(
                                    r,
                                    p.drop_first(),
                                    s,
                                    t.drop_first(),
                                    sid,
                                ) == node_count(c_old.node, p.drop_first(), s));
                            }
                        }
                    }
                }
            }
            r
        },
    }
}

/// Every pattern of `ps`, with `tok` put in front.
pub open spec fn prefix_all(tok: Seq<char>, ps: Seq<Seq<Seq<char>>>) -> Seq<Seq<Seq<char>>> {
    ps.map_values(|p: Seq<Seq<char>>| seq![tok] + p)
}

/// The stored patterns that match a topic with tokens `t`, each once: `>` as
/// the first token matches any non-empty rest, `*` matches any one token, and
/// a literal token matches itself.
pub open spec fn candidate_patterns(t: Seq<Seq<char>>) -> Seq<Seq<Seq<char>>>
    decreases t.len(),
{
    if t.len() == 0 {
        seq![Seq::<Seq<char>>::empty()]
    } else {
        let rest = candidate_patterns(t.drop_first());
        seq![seq![full_wildcard_token()]] + (if is_literal_token(t[0]) {
            prefix_all(t[0], rest)
        } else {
            Seq::<Seq<Seq<char>>>::empty()
        }) + prefix_all(single_wildcard_token(), rest)
    }
}

spec fn node_sum(node: TrieNode, ps: Seq<Seq<Seq<char>>>, sid: SubscriptionId) -> nat
    decreases ps.len(),
{
    if ps.len() == 0 {
        0
    } else {
        node_sum(node, ps.drop_last(), sid) + node_count(node, ps.last(), sid)
    }
}

proof fn lemma_node_sum_concat(
    node: TrieNode,
    a: Seq<Seq<Seq<char>>>,
    b: Seq<Seq<Seq<char>>>,
    sid: SubscriptionId,
)
    ensures
        node_sum(node, a + b, sid) == node_sum(node, a, sid) + node_sum(node, b, sid),
    decreases b.len(),
{
    if b.len() == 0 {
        assert(a + b =~= a);
    } else {
        assert((a + b).drop_last() =~= a + b.drop_last());
        lemma_node_sum_concat(node, a, b.drop_last(), sid);
    }
}

/// Counting patterns that all start with a literal token at a node is
/// counting their rests at the child for that token.
proof fn lemma_node_sum_literal(
    node: TrieNode,
    tok: Seq<char>,
    ps: Seq<Seq<Seq<char>>>,
    sid: SubscriptionId,
)
    requires
        is_literal_token(tok),
    ensures
        node_sum(node, prefix_all(tok, ps), sid) == match find_child(node.children@, tok) {
            Some(c) => node_sum(c, ps, sid),
            None => 0,
        },
    decreases ps.len(),
{
    if ps.len() > 0 {
        assert(prefix_all(tok, ps).drop_last() =~= prefix_all(tok, ps.drop_last()));
        lemma_node_sum_literal(node, tok, ps.drop_last(), sid);
        let q = seq![tok] + ps.last();
        assert(q[0] == tok);
        assert(q.drop_first() =~= ps.last());
    }
}

proof fn lemma_node_sum_wildcard(node: TrieNode, ps: Seq<Seq<Seq<char>>>, sid: SubscriptionId)
    ensures
        node_sum(node, prefix_all(single_wildcard_token(), ps), sid) == match node.wildcard {
            Some(w) => node_sum(*w, ps, sid),
            None => 0,
        },
    decreases ps.len(),
{
    let tok = single_wildcard_token();
    assert(tok[0] != full_wildcard_token()[0]);
    if ps.len() == 0 {
        assert(prefix_all(tok, ps) =~= Seq::<Seq<Seq<char>>>::empty());
    } else {
        assert(prefix_all(tok, ps).drop_last() =~= prefix_all(tok, ps.drop_last()));
        lemma_node_sum_wildcard(node, ps.drop_last(), sid);
        let q = seq![tok] + ps.last();
        assert(q[0] == tok);
        assert(q.drop_first() =~= ps.last());
    }
}

/// How many registrations at `node` match the topic tokens `t`, unfolded one
/// level: exact subscriptions when `t` is used up, otherwise `>` here plus the
/// matches below the literal child and below the `*` child.
proof fn lemma_node_match_unfold(node: TrieNode, t: Seq<Seq<char>>, sid: SubscriptionId)
    requires
        node_wf(node),
    ensures
        node_sum(node, candidate_patterns(t), sid) == if t.len() == 0 {
            count_of(node.subscriptions@, sid)
        } else {
            count_of(node.full_wildcard_subs@, sid) + (match find_child(node.children@, t[0]) {
                Some(c) => node_sum(c, candidate_patterns(t.drop_first()), sid),
                None => 0,
            }) + (match node.wildcard {
                Some(w) => node_sum(*w, candidate_patterns(t.drop_first()), sid),
                None => 0,
            })
        },
{
    if t.len() == 0 {
        let ps = candidate_patterns(t);
        assert(ps.drop_last() =~= Seq::<Seq<Seq<char>>>::empty());
        assert(ps.last().len() == 0);
        assert(node_sum(node, ps.drop_last(), sid) == 0);
    } else {
        let rest = candidate_patterns(t.drop_first());
        let first = seq![seq![full_wildcard_token()]];
        let lit = if is_literal_token(t[0]) {
            prefix_all(t[0], rest)
        } else {
            Seq::<Seq<Seq<char>>>::empty()
        };
        let wild = prefix_all(single_wildcard_token(), rest);
        assert(candidate_patterns(t) == first + lit + wild);
        lemma_node_sum_concat(node, first + lit, wild, sid);
        lemma_node_sum_concat(node, first, lit, sid);
        assert(first.drop_last() =~= Seq::<Seq<Seq<char>>>::empty());
        assert(first.last()[0] == full_wildcard_token());
        assert(node_sum(node, first.drop_last(), sid) == 0);
        lemma_node_sum_wildcard(node, rest, sid);
        assert(node_sum(node, first, sid) == count_of(node.full_wildcard_subs@, sid));
        if is_literal_token(t[0]) {
            lemma_node_sum_literal(node, t[0], rest, sid);
        } else {
            if find_child(node.children@, t[0]) is Some {
                lemma_find_child_some(node.children@, t[0]);
                let i = choose|i: int|
                    0 <= i < node.children@.len() && (#[trigger] node.children@[i]).token@ == t[0];
                assert(is_literal_token(node.children@[i].token@));
            }
        }
    }
}

/// Appends every element of `src` to `dst`.
fn append_all(dst: &mut Vec<SubscriptionId>, src: &Vec<SubscriptionId>)
    ensures
        final(dst)@ == old(dst)@ + src@,
        forall|s: SubscriptionId|
            #![trigger count_of(final(dst)@, s)]
            count_of(final(dst)@, s) == count_of(old(dst)@, s) + count_of(src@, s),
{
    let ghost d0 = dst@;
    let mut i: usize = 0;
    while i < src.len()
        invariant
            i <= src@.len(),
            dst@ == d0 + src@.take(i as int),
        decreases src@.len() - i,
    {
        dst.push(src[i]);
        i = i + 1;
        assert(dst@ =~= d0 + src@.take(i as int));
    }
    assert(src@.take(src@.len() as int) =~= src@);
    assert forall|s: SubscriptionId| #![trigger count_of(dst@, s)]
        count_of(dst@, s) == count_of(d0, s) + count_of(src@, s) by {
        lemma_count_of_concat(d0, src@, s);
    }
}

/// The ids that matching a topic with tokens `t` lists at `node`, in the
/// order they are found: the `>` registrations here (when a token is left),
/// then those below the literal child for the next token, then those below
/// the `*` child; at the end of the topic, the registrations ending here.
spec fn node_matches(node: TrieNode, t: Seq<Seq<char>>) -> Seq<SubscriptionId>
    decreases t.len(),
{
    if t.len() == 0 {
        node.subscriptions@
    } else {
        node.full_wildcard_subs@ + match find_child(node.children@, t[0]) {
            Some(c) => node_matches(c, t.drop_first()),
            None => Seq::empty(),
        } + match node.wildcard {
            Some(w) => node_matches(*w, t.drop_first()),
            None => Seq::empty(),
        }
    }
}

fn collect_matches(
    node: &TrieNode,
    toks: &Vec<String>,
    depth: usize,
    result: &mut Vec<SubscriptionId>,
)
    requires
        node_wf(*node),
        depth <= toks@.len(),
    ensures
        final(result)@ == old(result)@ + node_matches(
            *node,
            strings_view(toks@).subrange(depth as int, toks@.len() as int),
        ),
        forall|s: SubscriptionId|
            #![trigger count_of(final(result)@, s)]
            count_of(final(result)@, s) == count_of(old(result)@, s) + node_sum(
                *node,
                candidate_patterns(strings_view(toks@).subrange(depth as int, toks@.len() as int)),
                s,
            ),
    decreases toks@.len() - depth,
{
    let ghost t = strings_view(toks@).subrange(depth as int, toks@.len() as int);
    let ghost r0 = result@;
    if depth == toks.len() {
        append_all(result, &node.subscriptions);
        proof {
            assert forall|s: SubscriptionId| #![trigger count_of(result@, s)]
                count_of(result@, s) == count_of(r0, s) + node_sum(*node, candidate_patterns(t), s) by {
                lemma_node_match_unfold(*node, t, s);
            }
        }
        return;
    }
    append_all(result, &node.full_wildcard_subs);
    let ghost r1 = result@;
    let tok = toks[depth].as_str();
    proof {
        assert(t[0] == tok@);
        assert(t.drop_first() =~= strings_view(toks@).subrange(depth + 1, toks@.len() as int));
    }
    match node.find_child_index(tok) {
        Some(idx) => {
            collect_matches(&node.children[idx].node, toks, depth + 1, result);
        },
        None => {},
    }
    let ghost r2 = result@;
    match &node.wildcard {
        Some(w) => {
            collect_matches(&**w, toks, depth + 1, result);
        },
        None => {},
    }
    proof {
        assert(result@ =~= r0 + node_matches(*node, t));
        assert forall|s: SubscriptionId| #![trigger count_of(result@, s)]
            count_of(result@, s) == count_of(r0, s) + node_sum(*node, candidate_patterns(t), s) by {
            lemma_node_match_unfold(*node, t, s);
        }
    }
}

impl TrieNode {
    fn new() -> (n: TrieNode)
        ensures
            node_is_empty(n),
            node_wf(n),
    {
        TrieNode {
            children: Vec::new(),
            wildcard: None,
            full_wildcard_subs: Vec::new(),
            subscriptions: Vec::new(),
        }
    }

    fn is_empty(&self) -> (r: bool)
        ensures
            r == node_is_empty(*self),
    {
        self.children.len() == 0 && self.wildcard.is_none() && self.full_wildcard_subs.len() == 0
            && self.subscriptions.len() == 0
    }

    /// The position of the literal child with token `tok`, if any.
    fn find_child_index(&self, tok: &str) -> (r: Option<usize>)
        requires
            distinct_tokens(self.children@),
        ensures
            match r {
                Some(i) => i < self.children@.len() && self.children@[i as int].token@ == tok@
                    && find_child(self.children@, tok@) == Some(self.children@[i as int].node),
                None => find_child(self.children@, tok@) is None,
            },
    {
        let mut i: usize = 0;
        while i < self.children.len()
            invariant
                i <= self.children@.len(),
                distinct_tokens(self.children@),
                forall|k: int| 0 <= k < i ==> (#[trigger] self.children@[k]).token@ != tok@,
            decreases self.children@.len() - i,
        {
            if str_eq(self.children[i].token.as_str(), tok) {
                proof {
                    lemma_find_child_at(self.children@, i as int);
                }
                return Some(i);
            }
            i = i + 1;
        }
        proof {
            lemma_find_child_none(self.children@, tok@);
        }
        None
    }
}

impl TopicTrie {
    /// The trie's internal consistency: literal child tokens are distinct and
    /// never a wildcard, at every node.
    pub closed spec fn well_formed(&self) -> bool {
        node_wf(self.root)
    }

    /// How many times `sid` is registered under pattern `pattern` (inserts
    /// minus removals). Tokens after a `>` are not looked at.
    pub closed spec fn count(&self, pattern: Seq<Seq<char>>, sid: SubscriptionId) -> nat {
        node_count(self.root, pattern, sid)
    }

    /// The registrations of `sid` summed over the patterns `ps`.
    pub open spec fn total_count(&self, ps: Seq<Seq<Seq<char>>>, sid: SubscriptionId) -> nat
        decreases ps.len(),
    {
        if ps.len() == 0 {
            0
        } else {
            self.total_count(ps.drop_last(), sid) + self.count(ps.last(), sid)
        }
    }

    /// The subscription ids that `matches` lists for a topic with tokens
    /// `topic`, in order.
    pub closed spec fn match_list(&self, topic: Seq<Seq<char>>) -> Seq<SubscriptionId> {
        node_matches(self.root, topic)
    }

    /// How many registrations of `sid` match a topic with tokens `topic`.
    pub open spec fn match_count(&self, topic: Seq<Seq<char>>, sid: SubscriptionId) -> nat {
        self.total_count(candidate_patterns(topic), sid)
    }

    proof fn lemma_total_is_node_sum(&self, ps: Seq<Seq<Seq<char>>>, sid: SubscriptionId)
        ensures
            self.total_count(ps, sid) == node_sum(self.root, ps, sid),
        decreases ps.len(),
    {
        if ps.len() > 0 {
            self.lemma_total_is_node_sum(ps.drop_last(), sid);
        }
    }

    /// An empty trie.
    pub fn new() -> (t: TopicTrie)
        ensures
            t.well_formed(),
            forall|p: Seq<Seq<char>>, s: SubscriptionId| #[trigger] t.count(p, s) == 0,
    {
        let t = TopicTrie { root: TrieNode::new() };
        proof {
            assert forall|p: Seq<Seq<char>>, s: SubscriptionId| #[trigger] t.count(p, s) == 0 by {
                lemma_empty_node_counts(t.root, p, s);
            }
        }
        t
    }

    /// Insert a subscription pattern into the trie: `sid` is registered once
    /// more under the tokens of `subject`.
    pub fn insert(&mut self, subject: &str, sid: SubscriptionId)
        requires
            old(self).well_formed(),
        ensures
            final(self).well_formed(),
            forall|p: Seq<Seq<char>>, s: SubscriptionId|
                #[trigger] final(self).count(p, s) == old(self).count(p, s) + key_hit(
                    p,
                    s,
                    split_dots(subject@),
                    sid,
                ),
    {
        let toks = split_tokens(subject);
        proof {
            assert(strings_view(toks@).subrange(0, toks@.len() as int) =~= split_dots(subject@));
        }
        insert_at(&mut self.root, &toks, 0, sid);
    }

    /// Remove a subscription from the trie. Returns true if found and removed:
    /// exactly when `sid` was registered under the tokens of `subject`, and
    /// then one such registration is gone.
    pub fn remove(&mut self, subject: &str, sid: SubscriptionId) -> (r: bool)
        requires
            old(self).well_formed(),
        ensures
            final(self).well_formed(),
            r == (old(self).count(split_dots(subject@), sid) > 0),
            !r ==> *final(self) == *old(self),
            forall|p: Seq<Seq<char>>, s: SubscriptionId|
                #[trigger] final(self).count(p, s) + removal_hit(
                    r,
                    p,
                    s,
                    split_dots(subject@),
                    sid,
                ) == old(self).count(p, s),
    {
        let toks = split_tokens(subject);
        proof {
            assert(strings_view(toks@).subrange(0, toks@.len() as int) =~= split_dots(subject@));
        }
        if !registered_at(&self.root, &toks, 0, sid) {
            return false;
        }
        remove_at(&mut self.root, &toks, 0, sid)
    }

    /// Find all subscription ids matching a concrete (non-wildcard) topic:
    /// each `sid` occurs as many times as it is registered under patterns
    /// that match the topic's tokens.
    pub fn matches(&self, topic: &str) -> (r: Vec<SubscriptionId>)
        requires
            self.well_formed(),
        ensures
            r@ == self.match_list(split_dots(topic@)),
            forall|s: SubscriptionId|
                #[trigger] count_of(r@, s) == self.match_count(split_dots(topic@), s),
    {
        let mut result: Vec<SubscriptionId> = Vec::new();
        let toks = split_tokens(topic);
        proof {
            assert(strings_view(toks@).subrange(0, toks@.len() as int) =~= split_dots(topic@));
        }
        collect_matches(&self.root, &toks, 0, &mut result);
        proof {
            assert forall|s: SubscriptionId| #[trigger]
                count_of(result@, s) == self.match_count(split_dots(topic@), s) by {
                self.lemma_total_is_node_sum(candidate_patterns(split_dots(topic@)), s);
            }
        }
        result
    }
}

/// Whether the subscription pattern `p` matches a topic with tokens `t`:
/// `*` matches exactly one token, `>` matches one or more remaining tokens,
/// and any other token matches only itself.
pub open spec fn pattern_matches(p: Seq<Seq<char>>, t: Seq<Seq<char>>) -> bool
    decreases p.len(),
{
    if p.len() == 0 {
        t.len() == 0
    } else if p[0] == full_wildcard_token() {
        t.len() >= 1
    } else if p[0] == single_wildcard_token() {
        t.len() >= 1 && pattern_matches(p.drop_first(), t.drop_first())
    } else {
        t.len() >= 1 && t[0] == p[0] && pattern_matches(p.drop_first(), t.drop_first())
    }
}

/// A pattern in stored form: a `>` can only be its last token.
pub open spec fn is_pattern_key(p: Seq<Seq<char>>) -> bool {
    forall|i: int| 0 <= i < p.len() - 1 ==> #[trigger] p[i] != full_wildcard_token()
}

proof fn lemma_prefix_all_contains(tok: Seq<char>, ps: Seq<Seq<Seq<char>>>, p: Seq<Seq<char>>)
    ensures
        prefix_all(tok, ps).contains(p) <==> (p.len() > 0 && p[0] == tok && ps.contains(
            p.drop_first(),
        )),
{
    let qs = prefix_all(tok, ps);
    if qs.contains(p) {
        let i = choose|i: int| 0 <= i < qs.len() && qs[i] == p;
        assert(p == seq![tok] + ps[i]);
        assert(p.drop_first() =~= ps[i]);
    }
    if p.len() > 0 && p[0] == tok && ps.contains(p.drop_first()) {
        let i = choose|i: int| 0 <= i < ps.len() && ps[i] == p.drop_first();
        assert(qs[i] =~= p);
    }
}

proof fn lemma_prefix_all_no_duplicates(tok: Seq<char>, ps: Seq<Seq<Seq<char>>>)
    requires
        ps.no_duplicates(),
    ensures
        prefix_all(tok, ps).no_duplicates(),
{
    let qs = prefix_all(tok, ps);
    assert forall|i: int, j: int| 0 <= i < qs.len() && 0 <= j < qs.len() && i != j implies qs[i]
        != qs[j] by {
        if qs[i] == qs[j] {
            assert(qs[i].drop_first() =~= ps[i]);
            assert(qs[j].drop_first() =~= ps[j]);
        }
    }
}

proof fn lemma_concat_no_duplicates<A>(a: Seq<A>, b: Seq<A>)
    requires
        a.no_duplicates(),
        b.no_duplicates(),
        forall|x: A| a.contains(x) ==> !b.contains(x),
    ensures
        (a + b).no_duplicates(),
        forall|x: A| (a + b).contains(x) <==> a.contains(x) || b.contains(x),
{
    let c = a + b;
    assert forall|i: int, j: int| 0 <= i < c.len() && 0 <= j < c.len() && i != j implies c[i]
        != c[j] by {
        if i < a.len() && j >= a.len() {
            assert(a.contains(c[i]));
            assert(b[j - a.len()] == c[j]);
        }
        if j < a.len() && i >= a.len() {
            assert(a.contains(c[j]));
            assert(b[i - a.len()] == c[i]);
        }
    }
    assert forall|x: A| c.contains(x) <==> a.contains(x) || b.contains(x) by {
        if c.contains(x) {
            let i = choose|i: int| 0 <= i < c.len() && c[i] == x;
            if i >= a.len() {
                assert(b[i - a.len()] == x);
            }
        }
        if b.contains(x) {
            let i = choose|i: int| 0 <= i < b.len() && b[i] == x;
            assert(c[i + a.len()] == x);
        }
        if a.contains(x) {
            let i = choose|i: int| 0 <= i < a.len() && a[i] == x;
            assert(c[i] == x);
        }
    }
}

/// The candidate patterns of a topic are exactly the stored-form patterns that
/// match it, each listed once.
pub proof fn lemma_candidates_are_matching_patterns(t: Seq<Seq<char>>, p: Seq<Seq<char>>)
    ensures
        candidate_patterns(t).no_duplicates(),
        is_pattern_key(p) ==> (candidate_patterns(t).contains(p) <==> pattern_matches(p, t)),
    decreases t.len(),
{
    let gt = full_wildcard_token();
    let star = single_wildcard_token();
    assert(gt[0] != star[0]);
    if t.len() == 0 {
        let c = candidate_patterns(t);
        if c.contains(p) {
            assert(p =~= c[0]);
        }
        if p.len() == 0 {
            assert(c[0] =~= p);
        }
    } else {
        let rest = candidate_patterns(t.drop_first());
        let first = seq![seq![gt]];
        if p.len() > 0 {
            lemma_candidates_are_matching_patterns(t.drop_first(), p.drop_first());
        } else {
            lemma_candidates_are_matching_patterns(t.drop_first(), p);
        }
        let lit = if is_literal_token(t[0]) {
            prefix_all(t[0], rest)
        } else {
            Seq::<Seq<Seq<char>>>::empty()
        };
        let wild = prefix_all(star, rest);
        lemma_prefix_all_no_duplicates(star, rest);
        lemma_prefix_all_no_duplicates(t[0], rest);
        assert forall|x: Seq<Seq<char>>| lit.contains(x) implies !wild.contains(x) by {
            lemma_prefix_all_contains(t[0], rest, x);
            lemma_prefix_all_contains(star, rest, x);
        }
        lemma_concat_no_duplicates(lit, wild);
        assert forall|x: Seq<Seq<char>>| first.contains(x) implies !(lit + wild).contains(x) by {
            assert(x =~= seq![gt]);
            lemma_prefix_all_contains(t[0], rest, x);
            lemma_prefix_all_contains(star, rest, x);
        }
        lemma_concat_no_duplicates(first, lit + wild);
        assert(candidate_patterns(t) =~= first + (lit + wild));
        if is_pattern_key(p) {
            lemma_prefix_all_contains(t[0], rest, p);
            lemma_prefix_all_contains(star, rest, p);
            if p.len() > 0 {
                assert(is_pattern_key(p.drop_first())) by {
                    assert forall|i: int| 0 <= i < p.drop_first().len() - 1 implies #[trigger] p.drop_first()[i]
                        != full_wildcard_token() by {
                        assert(p.drop_first()[i] == p[i + 1]);
                    }
                }
                if p[0] == gt {
                    if p.len() > 1 {
                        assert(p[0] != full_wildcard_token());
                    }
                    assert(p =~= seq![gt]);
                    assert(first[0] == p);
                    assert(candidate_patterns(t).contains(p));
                    assert(pattern_matches(p, t));
                } else if p[0] == star {
                    assert(!first.contains(p)) by {
                        if first.contains(p) {
                            assert(p =~= seq![gt]);
                        }
                    }
                    assert(!lit.contains(p));
                    assert(candidate_patterns(t).contains(p) <==> wild.contains(p));
                    assert(wild.contains(p) <==> rest.contains(p.drop_first()));
                    assert(pattern_matches(p, t) <==> pattern_matches(p.drop_first(), t.drop_first()));
                } else {
                    assert(!first.contains(p)) by {
                        if first.contains(p) {
                            assert(p =~= seq![gt]);
                        }
                    }
                    assert(!wild.contains(p));
                    assert(candidate_patterns(t).contains(p) <==> lit.contains(p));
                    assert(pattern_matches(p, t) <==> (t[0] == p[0] && pattern_matches(p.drop_first(), t.drop_first())));
                }
            } else {
                if first.contains(p) {
                    assert(p == first[0]);
                }
                assert(!candidate_patterns(t).contains(p));
            }
        }
    }
}

impl TopicTrie {
    proof fn lemma_total_count_member(&self, ps: Seq<Seq<Seq<char>>>, p: Seq<Seq<char>>, sid: SubscriptionId)
        requires
            ps.contains(p),
        ensures
            self.total_count(ps, sid) >= self.count(p, sid),
        decreases ps.len(),
    {
        if ps.last() != p {
            let i = choose|i: int| 0 <= i < ps.len() && ps[i] == p;
            assert(ps.drop_last()[i] == p);
            self.lemma_total_count_member(ps.drop_last(), p, sid);
        }
    }

    proof fn lemma_total_count_witness(&self, ps: Seq<Seq<Seq<char>>>, sid: SubscriptionId)
        requires
            self.total_count(ps, sid) > 0,
        ensures
            exists|p: Seq<Seq<char>>| ps.contains(p) && self.count(p, sid) > 0,
        decreases ps.len(),
    {
        if self.count(ps.last(), sid) > 0 {
            assert(ps[ps.len() - 1] == ps.last());
            assert(ps.contains(ps.last()) && self.count(ps.last(), sid) > 0);
        } else {
            self.lemma_total_count_witness(ps.drop_last(), sid);
            let p = choose|p: Seq<Seq<char>>| ps.drop_last().contains(p) && self.count(p, sid) > 0;
            let i = choose|i: int| 0 <= i < ps.drop_last().len() && ps.drop_last()[i] == p;
            assert(ps[i] == p);
            assert(ps.contains(p) && self.count(p, sid) > 0);
        }
    }

    /// Every registration of `sid` under a stored-form pattern that matches
    /// the topic is counted among the topic's matches.
    pub proof fn lemma_matching_registration_counted(
        &self,
        p: Seq<Seq<char>>,
        topic: Seq<Seq<char>>,
        sid: SubscriptionId,
    )
        requires
            is_pattern_key(p),
            pattern_matches(p, topic),
        ensures
            self.match_count(topic, sid) >= self.count(p, sid),
    {
        lemma_candidates_are_matching_patterns(topic, p);
        self.lemma_total_count_member(candidate_patterns(topic), p, sid);
    }

    /// A subscription id is returned for a topic only if it is registered
    /// under some stored-form pattern that matches the topic.
    pub proof fn lemma_match_has_matching_registration(
        &self,
        topic: Seq<Seq<char>>,
        sid: SubscriptionId,
    )
        requires
            self.match_count(topic, sid) > 0,
        ensures
            exists|p: Seq<Seq<char>>|
                is_pattern_key(p) && pattern_matches(p, topic) && #[trigger] self.count(p, sid) > 0,
    {
        self.lemma_total_count_witness(candidate_patterns(topic), sid);
        let p = choose|p: Seq<Seq<char>>|
            candidate_patterns(topic).contains(p) && self.count(p, sid) > 0;
        lemma_candidates_are_key_patterns(topic, p);
        lemma_candidates_are_matching_patterns(topic, p);
    }
}

/// The stored form of a pattern holds `>` only as its last token, and is its
/// own stored form.
pub proof fn lemma_pattern_key_is_key(p: Seq<Seq<char>>)
    ensures
        is_pattern_key(pattern_key(p)),
        pattern_key(pattern_key(p)) == pattern_key(p),
    decreases p.len(),
{
    if p.len() > 0 && p[0] != full_wildcard_token() {
        lemma_pattern_key_is_key(p.drop_first());
        let k = pattern_key(p);
        let kr = pattern_key(p.drop_first());
        assert(k == seq![p[0]] + kr);
        assert(k[0] == p[0]);
        assert(k.drop_first() =~= kr);
        assert forall|i: int| 0 <= i < k.len() - 1 implies #[trigger] k[i] != full_wildcard_token() by {
            if i > 0 {
                assert(k[i] == kr[i - 1]);
            }
        }
    } else if p.len() > 0 {
        let k = pattern_key(p);
        assert(k =~= seq![full_wildcard_token()]);
        assert(k[0] == full_wildcard_token());
        assert(pattern_key(k) =~= k);
    }
}

/// Registrations are counted by stored form: tokens after the first `>` of a
/// pattern do not change its count.
proof fn lemma_node_count_key(node: TrieNode, p: Seq<Seq<char>>, sid: SubscriptionId)
    ensures
        node_count(node, p, sid) == node_count(node, pattern_key(p), sid),
    decreases p.len(),
{
    if p.len() > 0 {
        let k = pattern_key(p);
        if p[0] == full_wildcard_token() {
            assert(k =~= seq![full_wildcard_token()]);
            assert(k[0] == full_wildcard_token());
        } else {
            assert(k == seq![p[0]] + pattern_key(p.drop_first()));
            assert(k[0] == p[0]);
            assert(k.drop_first() =~= pattern_key(p.drop_first()));
            if p[0] == single_wildcard_token() {
                match node.wildcard {
                    Some(w) => lemma_node_count_key(*w, p.drop_first(), sid),
                    None => {},
                }
            } else {
                match find_child(node.children@, p[0]) {
                    Some(c) => lemma_node_count_key(c, p.drop_first(), sid),
                    None => {},
                }
            }
        }
    }
}

/// A pattern whose only `>` (if any) is its last token is its own stored
/// form.
pub proof fn lemma_key_pattern_unchanged(p: Seq<Seq<char>>)
    requires
        is_pattern_key(p),
    ensures
        pattern_key(p) == p,
    decreases p.len(),
{
    if p.len() > 0 {
        if p[0] == full_wildcard_token() {
            assert(p.len() == 1);
            assert(pattern_key(p) =~= p);
        } else {
            let q = p.drop_first();
            assert forall|i: int| 0 <= i < q.len() - 1 implies #[trigger] q[i] != full_wildcard_token() by {
                assert(q[i] == p[i + 1]);
            }
            lemma_key_pattern_unchanged(q);
            assert(pattern_key(p) =~= p);
        }
    }
}

impl TopicTrie {
    /// Tokens after the first `>` of a pattern are not looked at: a pattern
    /// counts as many registrations as its stored form.
    pub proof fn lemma_count_by_key(&self, p: Seq<Seq<char>>, sid: SubscriptionId)
        ensures
            self.count(p, sid) == self.count(pattern_key(p), sid),
    {
        lemma_node_count_key(self.root, p, sid);
    }
}

/// After `insert(subject, sid)` turns `before` into `after`, every topic that
/// the subject's pattern matches yields `sid` from `matches`.
pub proof fn lemma_insert_then_match(
    before: TopicTrie,
    after: TopicTrie,
    subject: Seq<char>,
    sid: SubscriptionId,
    topic: Seq<Seq<char>>,
)
    requires
        forall|p: Seq<Seq<char>>, s: SubscriptionId|
            #[trigger] after.count(p, s) == before.count(p, s) + key_hit(
                p,
                s,
                split_dots(subject),
                sid,
            ),
        pattern_matches(pattern_key(split_dots(subject)), topic),
    ensures
        after.match_count(topic, sid) >= 1,
{
    let k = pattern_key(split_dots(subject));
    lemma_pattern_key_is_key(split_dots(subject));
    assert(after.count(k, sid) >= 1);
    after.lemma_matching_registration_counted(k, topic, sid);
}

/// Removing what was just inserted succeeds and restores every count.
pub proof fn lemma_insert_then_remove(
    before: TopicTrie,
    middle: TopicTrie,
    after: TopicTrie,
    subject: Seq<char>,
    sid: SubscriptionId,
    removed: bool,
)
    requires
        forall|p: Seq<Seq<char>>, s: SubscriptionId|
            #[trigger] middle.count(p, s) == before.count(p, s) + key_hit(
                p,
                s,
                split_dots(subject),
                sid,
            ),
        removed == (middle.count(split_dots(subject), sid) > 0),
        forall|p: Seq<Seq<char>>, s: SubscriptionId|
            #[trigger] after.count(p, s) + removal_hit(removed, p, s, split_dots(subject), sid)
                == middle.count(p, s),
    ensures
        removed,
        forall|p: Seq<Seq<char>>, s: SubscriptionId| #[trigger] after.count(p, s) == before.count(p, s),
{
    assert(middle.count(split_dots(subject), sid) >= 1);
    assert forall|p: Seq<Seq<char>>, s: SubscriptionId| #[trigger] after.count(p, s) == before.count(p, s) by {
        assert(middle.count(p, s) == before.count(p, s) + key_hit(p, s, split_dots(subject), sid));
        assert(after.count(p, s) + removal_hit(removed, p, s, split_dots(subject), sid) == middle.count(p, s));
    }
}

proof fn lemma_candidates_are_key_patterns(t: Seq<Seq<char>>, p: Seq<Seq<char>>)
    requires
        candidate_patterns(t).contains(p),
    ensures
        is_pattern_key(p),
    decreases t.len(),
{
    if t.len() > 0 {
        let rest = candidate_patterns(t.drop_first());
        let gt = full_wildcard_token();
        let star = single_wildcard_token();
        let first = seq![seq![gt]];
        let lit = if is_literal_token(t[0]) {
            prefix_all(t[0], rest)
        } else {
            Seq::<Seq<Seq<char>>>::empty()
        };
        let wild = prefix_all(star, rest);
        assert(candidate_patterns(t) =~= first + (lit + wild));
        lemma_concat_no_duplicates_contains(first, lit + wild, p);
        lemma_concat_no_duplicates_contains(lit, wild, p);
        lemma_prefix_all_contains(t[0], rest, p);
        lemma_prefix_all_contains(star, rest, p);
        if first.contains(p) {
            assert(p =~= seq![gt]);
        } else {
            lemma_candidates_are_key_patterns(t.drop_first(), p.drop_first());
            assert(gt[0] != star[0]);
            assert forall|i: int| 0 <= i < p.len() - 1 implies #[trigger] p[i] != full_wildcard_token() by {
                if i > 0 {
                    assert(p[i] == p.drop_first()[i - 1]);
                }
            }
        }
    } else {
        let c = candidate_patterns(t);
        assert(p =~= c[0]);
    }
}

proof fn lemma_concat_no_duplicates_contains<A>(a: Seq<A>, b: Seq<A>, x: A)
    ensures
        (a + b).contains(x) <==> a.contains(x) || b.contains(x),
{
    let c = a + b;
    if c.contains(x) {
        let i = choose|i: int| 0 <= i < c.len() && c[i] == x;
        if i >= a.len() {
            assert(b[i - a.len()] == x);
        }
    }
    if b.contains(x) {
        let i = choose|i: int| 0 <= i < b.len() && b[i] == x;
        assert(c[i + a.len()] == x);
    }
    if a.contains(x) {
        let i = choose|i: int| 0 <= i < a.len() && a[i] == x;
        assert(c[i] == x);
    }
}

/// How many of the patterns `ps` have stored form `k`.
spec fn key_hits(ps: Seq<Seq<Seq<char>>>, k: Seq<Seq<char>>) -> nat
    decreases ps.len(),
{
    if ps.len() == 0 {
        0
    } else {
        key_hits(ps.drop_last(), k) + if pattern_key(ps.last()) == k {
            1nat
        } else {
            0nat
        }
    }
}

proof fn lemma_total_after_insert(
    before: TopicTrie,
    after: TopicTrie,
    ps: Seq<Seq<Seq<char>>>,
    t: Seq<Seq<char>>,
    sid: SubscriptionId,
    s: SubscriptionId,
)
    requires
        forall|p: Seq<Seq<char>>, s2: SubscriptionId|
            #[trigger] after.count(p, s2) == before.count(p, s2) + key_hit(p, s2, t, sid),
    ensures
        after.total_count(ps, s) == before.total_count(ps, s) + if s == sid {
            key_hits(ps, pattern_key(t))
        } else {
            0
        },
    decreases ps.len(),
{
    if ps.len() > 0 {
        lemma_total_after_insert(before, after, ps.drop_last(), t, sid, s);
        assert(after.count(ps.last(), s) == before.count(ps.last(), s) + key_hit(ps.last(), s, t, sid));
    }
}

proof fn lemma_total_after_remove(
    before: TopicTrie,
    after: TopicTrie,
    ps: Seq<Seq<Seq<char>>>,
    t: Seq<Seq<char>>,
    sid: SubscriptionId,
    s: SubscriptionId,
    removed: bool,
)
    requires
        forall|p: Seq<Seq<char>>, s2: SubscriptionId|
            #[trigger] after.count(p, s2) + removal_hit(removed, p, s2, t, sid) == before.count(p, s2),
    ensures
        after.total_count(ps, s) + (if removed && s == sid {
            key_hits(ps, pattern_key(t))
        } else {
            0
        }) == before.total_count(ps, s),
    decreases ps.len(),
{
    if ps.len() > 0 {
        lemma_total_after_remove(before, after, ps.drop_last(), t, sid, s, removed);
        assert(after.count(ps.last(), s) + removal_hit(removed, ps.last(), s, t, sid) == before.count(
            ps.last(),
            s,
        ));
    }
}

proof fn lemma_count_of_distinct<A>(ps: Seq<A>, x: A)
    requires
        ps.no_duplicates(),
    ensures
        count_of(ps, x) == if ps.contains(x) {
            1nat
        } else {
            0nat
        },
    decreases ps.len(),
{
    lemma_count_of_positive(ps, x);
    if ps.len() > 0 {
        let q = ps.drop_last();
        assert(q.no_duplicates()) by {
            assert forall|i: int, j: int| 0 <= i < q.len() && 0 <= j < q.len() && i != j implies q[i] != q[j] by {
                assert(q[i] == ps[i] && q[j] == ps[j]);
            }
        }
        lemma_count_of_distinct(q, x);
        lemma_count_of_positive(q, x);
        if ps.last() == x && q.contains(x) {
            let i = choose|i: int| 0 <= i < q.len() && q[i] == x;
            assert(ps[i] == ps[ps.len() - 1]);
        }
        if q.contains(x) {
            let i = choose|i: int| 0 <= i < q.len() && q[i] == x;
            assert(ps[i] == x);
        }
    }
}

proof fn lemma_key_hits_of_keys(ps: Seq<Seq<Seq<char>>>, k: Seq<Seq<char>>)
    requires
        forall|i: int| 0 <= i < ps.len() ==> is_pattern_key(#[trigger] ps[i]),
    ensures
        key_hits(ps, k) == count_of(ps, k),
    decreases ps.len(),
{
    if ps.len() > 0 {
        assert forall|i: int| 0 <= i < ps.drop_last().len() implies is_pattern_key(#[trigger] ps.drop_last()[i]) by {
            assert(ps.drop_last()[i] == ps[i]);
        }
        lemma_key_hits_of_keys(ps.drop_last(), k);
        assert(is_pattern_key(ps[ps.len() - 1]));
        lemma_key_pattern_unchanged(ps.last());
    }
}

/// The patterns whose registrations a topic's matches are summed over are
/// distinct, and they are exactly the stored-form patterns (`>` only last)
/// that match the topic: `matches` lists each id once for each of its
/// registrations under a pattern matching the topic, and for no other.
pub proof fn lemma_candidates_exact(x: Seq<Seq<char>>)
    ensures
        candidate_patterns(x).no_duplicates(),
        forall|p: Seq<Seq<char>>|
            #[trigger] candidate_patterns(x).contains(p) <==> is_pattern_key(p) && pattern_matches(p, x),
{
    lemma_candidates_are_matching_patterns(x, Seq::empty());
    assert forall|p: Seq<Seq<char>>|
        #[trigger] candidate_patterns(x).contains(p) <==> is_pattern_key(p) && pattern_matches(p, x) by {
        lemma_candidates_are_matching_patterns(x, p);
        if candidate_patterns(x).contains(p) {
            lemma_candidates_are_key_patterns(x, p);
        }
    }
}

/// A topic is matched by the stored form `k` of a pattern at most once: the
/// number of candidate patterns with stored form `k` is one when `k` matches
/// the topic and zero otherwise.
proof fn lemma_key_hits_candidates(x: Seq<Seq<char>>, t: Seq<Seq<char>>)
    ensures
        key_hits(candidate_patterns(x), pattern_key(t)) == if pattern_matches(pattern_key(t), x) {
            1nat
        } else {
            0nat
        },
{
    let c = candidate_patterns(x);
    let k = pattern_key(t);
    lemma_pattern_key_is_key(t);
    lemma_candidates_exact(x);
    assert forall|i: int| 0 <= i < c.len() implies is_pattern_key(#[trigger] c[i]) by {
        assert(c.contains(c[i]));
    }
    lemma_key_hits_of_keys(c, k);
    lemma_count_of_distinct(c, k);
}

/// After `insert(subject, sid)` turns `before` into `after`, every topic that
/// the subject's pattern matches is matched to `sid` once more, and nothing
/// else changes in any topic's matches.
pub proof fn lemma_insert_match_counts(
    before: TopicTrie,
    after: TopicTrie,
    subject: Seq<char>,
    sid: SubscriptionId,
    topic: Seq<Seq<char>>,
    s: SubscriptionId,
)
    requires
        forall|p: Seq<Seq<char>>, s2: SubscriptionId|
            #[trigger] after.count(p, s2) == before.count(p, s2) + key_hit(
                p,
                s2,
                split_dots(subject),
                sid,
            ),
    ensures
        after.match_count(topic, s) == before.match_count(topic, s) + if s == sid
            && pattern_matches(pattern_key(split_dots(subject)), topic) {
            1nat
        } else {
            0nat
        },
{
    lemma_total_after_insert(before, after, candidate_patterns(topic), split_dots(subject), sid, s);
    lemma_key_hits_candidates(topic, split_dots(subject));
}

/// After `remove(subject, sid)` turns `before` into `after` and returns
/// `removed`: when it removed, every topic that the subject's pattern matches
/// is matched to `sid` once less; nothing else changes in any topic's
/// matches.
pub proof fn lemma_remove_match_counts(
    before: TopicTrie,
    after: TopicTrie,
    subject: Seq<char>,
    sid: SubscriptionId,
    removed: bool,
    topic: Seq<Seq<char>>,
    s: SubscriptionId,
)
    requires
        forall|p: Seq<Seq<char>>, s2: SubscriptionId|
            #[trigger] after.count(p, s2) + removal_hit(removed, p, s2, split_dots(subject), sid)
                == before.count(p, s2),
    ensures
        after.match_count(topic, s) + (if removed && s == sid && pattern_matches(
            pattern_key(split_dots(subject)),
            topic,
        ) {
            1nat
        } else {
            0nat
        }) == before.match_count(topic, s),
{
    lemma_total_after_remove(before, after, candidate_patterns(topic), split_dots(subject), sid, s, removed);
    lemma_key_hits_candidates(topic, split_dots(subject));
}

/// String equality on the characters.
fn str_eq(a: &str, b: &str) -> (r: bool)
    ensures
        r == (a@ == b@),
{
    let x = a.to_owned();
    let y = b.to_owned();
    x == y
}

} // verus!
