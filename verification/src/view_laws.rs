//! What the mathematical values hold that contracts speak of in place of executable ones.
use vstd::prelude::*;
use vstd::string::*;

use crate::completion;
use crate::completion::RelationItem;
use crate::config_keys;
use crate::config_keys::ConfigKeyMatch;
use crate::config_references;
use crate::config_references::ConfigSource;
use crate::eloquent::{ClassInfo, PhpType};
use crate::lexer::Token;
use crate::location;
use crate::location::{Location, Place};
use crate::php;
use crate::php::{NodeRecord, PhpNode, TextSpan, Tree};
use crate::text;
use crate::trans_keys;
use crate::trans_keys::{LocaleDir, TransKeyMatch};

verus! {

/// The place of a location is its URI and its range; a list of them has the places of its items.
pub proof fn law_places_of_locations(v: Seq<Location>)
    ensures
        location::places(v).len() == v.len(),
        forall|i: int|
            0 <= i < v.len() ==> {
                let p = #[trigger] location::places(v)[i];
                p.uri == v[i].uri@ && p.range == v[i].range
            },
{
}

/// A location stands for a place exactly if both are there and agree, or neither is there.
pub proof fn law_location_stands_for_place(r: Option<Location>, p: Option<Place>)
    ensures
        location::is_place(r, p) <==> (r is None && p is None) || (r is Some && p is Some
            && (r->0).uri@ == (p->0).uri && (r->0).range == (p->0).range),
{
}

/// The span of a match is its key, its start and its end; a list of them has the spans of its items.
pub proof fn law_spans_of_matches(v: Seq<ConfigKeyMatch>)
    ensures
        config_keys::spans(v).len() == v.len(),
        forall|i: int|
            0 <= i < v.len() ==> {
                let m = #[trigger] config_keys::spans(v)[i];
                m.key == v[i].key@ && m.start == v[i].start && m.end == v[i].end
            },
{
}

/// The declared keys of a list of matches are their keys and starts.
pub proof fn law_keys_of_matches(v: Seq<TransKeyMatch>)
    ensures
        trans_keys::trans_keys(v).len() == v.len(),
        forall|i: int|
            0 <= i < v.len() ==> {
                let m = #[trigger] trans_keys::trans_keys(v)[i];
                m.key == v[i].key@ && m.start == v[i].start
            },
{
}

/// A token keeps its kind, its start and its end.
pub proof fn law_lexeme_of_token(t: Token)
    ensures
        t@.kind == t.kind && t@.start == t.start && t@.end == t.end,
{
}

/// The texts of a document are those of its URI, its prefix and its content.
pub proof fn law_texts_of_documents(v: Seq<ConfigSource>)
    ensures
        config_references::config_texts(v).len() == v.len(),
        forall|i: int|
            0 <= i < v.len() ==> {
                let d = #[trigger] config_references::config_texts(v)[i];
                &&& d.uri == v[i].uri@
                &&& d.content == v[i].content@
                &&& d.prefix is Some <==> v[i].prefix is Some
                &&& d.prefix is Some ==> d.prefix->0 == (v[i].prefix->0)@
            },
{
}

/// The proposals of a list of items hold the texts of the items.
pub proof fn law_proposals_of_items(v: Seq<RelationItem>)
    ensures
        completion::proposals(v).len() == v.len(),
        forall|i: int|
            0 <= i < v.len() ==> {
                let p = #[trigger] completion::proposals(v)[i];
                &&& p.label == v[i].label@
                &&& p.detail == v[i].detail@
                &&& p.insert_text == v[i].insert_text@
                &&& p.filter_text == v[i].filter_text@
            },
{
}

/// The entries of a list of nodes hold what the list says of them.
pub proof fn law_entries_of_records(v: Seq<NodeRecord>)
    ensures
        php::entries(v).len() == v.len(),
        forall|i: int|
            0 <= i < v.len() ==> {
                let e = #[trigger] php::entries(v)[i];
                e.kind == v[i].kind@ && e.start == v[i].start && e.end == v[i].end && e.arity
                    == v[i].arity
            },
{
}

/// The tree of a node has the node's kind, start and end, and the trees of its children in their order.
pub proof fn law_tree_of_node(n: PhpNode)
    ensures
        n.tree().kind == n.kind,
        n.tree().start == n.start,
        n.tree().end == n.end,
        n.tree().children.len() == n.children@.len(),
        forall|i: int|
            0 <= i < n.children@.len() ==> #[trigger] n.tree().children[i] == n.children@[i].tree(),
{
}

/// Lists of nodes have the trees of their items.
pub proof fn law_trees_of_nodes(v: Seq<PhpNode>, w: Seq<&PhpNode>)
    ensures
        php::trees(v).len() == v.len(),
        forall|i: int| 0 <= i < v.len() ==> #[trigger] php::trees(v)[i] == v[i].tree(),
        php::trees_of(w).len() == w.len(),
        forall|i: int| 0 <= i < w.len() ==> #[trigger] php::trees_of(w)[i] == w[i].tree(),
{
}

/// A node stands for a tree exactly if both are there and agree, or neither is there.
pub proof fn law_node_stands_for_tree(r: Option<&PhpNode>, t: Option<Tree>)
    ensures
        php::is_node(r, t) <==> (r is None && t is None) || (r is Some && t is Some && (r->0).tree()
            == t->0),
{
}

/// A text with its offsets stands for a span exactly if both are there and agree, or neither is there.
pub proof fn law_text_stands_for_span(r: Option<(&str, usize, usize)>, s: Option<TextSpan>)
    ensures
        php::is_span(r, s) <==> (r is None && s is None) || (r is Some && s is Some && (r->0).0@
            == (s->0).text && (r->0).1 == (s->0).start && (r->0).2 == (s->0).end),
{
}

/// Strings stand for texts exactly if both are there and agree, or neither is there.
pub proof fn law_string_stands_for_text(r: Option<String>, q: Option<&str>, s: Option<Seq<char>>)
    ensures
        text::is_text(r, s) <==> (r is None && s is None) || (r is Some && s is Some && (r->0)@
            == s->0),
        completion::is_str(q, s) <==> (q is None && s is None) || (q is Some && s is Some && (q->0)@
            == s->0),
{
}

/// The texts of a list of strings are those of its items.
pub proof fn law_texts_of_strings(v: Seq<String>)
    ensures
        text::views(v).len() == v.len(),
        forall|i: int| 0 <= i < v.len() ==> #[trigger] text::views(v)[i] == v[i]@,
{
}

/// A reference stands for a class or a type exactly if both are there and are the same, or neither is
/// there.
pub proof fn law_reference_stands_for_value(
    r: Option<&ClassInfo>,
    c: Option<ClassInfo>,
    q: Option<&PhpType>,
    t: Option<PhpType>,
)
    ensures
        completion::is_class(r, c) <==> (r is None && c is None) || (r is Some && c is Some && *(
        r->0) == c->0),
        completion::is_type(q, t) <==> (q is None && t is None) || (q is Some && t is Some && *(
        q->0) == t->0),
{
}

/// References to directories stand for the directories.
pub proof fn law_references_stand_for_directories(v: Seq<&LocaleDir>)
    ensures
        trans_keys::referred(v).len() == v.len(),
        forall|i: int| 0 <= i < v.len() ==> #[trigger] trans_keys::referred(v)[i] == *v[i],
{
}

} // verus!
