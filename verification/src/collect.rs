//! The external resources a document refers to.
use vstd::prelude::*;
use crate::ast::{Node, NodeModel, nodes_model};
use crate::resources::str_eq;

verus! {

/// The views of a list of strings.
pub open spec fn strings_model(v: Seq<String>) -> Seq<Seq<char>> {
    Seq::new(v.len(), |i: int| v[i]@)
}

/// A list with `x` appended unless it already holds it.
pub open spec fn push_new(v: Seq<Seq<char>>, x: Seq<char>) -> Seq<Seq<char>> {
    if v.contains(x) { v } else { v.push(x) }
}

/// The fonts of `@style` directives, each once, in order of first use.
pub open spec fn fonts_of(ns: Seq<NodeModel>) -> Seq<Seq<char>>
    decreases ns.len(),
{
    if ns.len() == 0 {
        seq![]
    } else {
        match ns.last() {
            NodeModel::Style { font, .. } => push_new(fonts_of(ns.drop_last()), font),
            _ => fonts_of(ns.drop_last()),
        }
    }
}

/// The URLs of `@image` directives, each once, in order of first use.
pub open spec fn images_of(ns: Seq<NodeModel>) -> Seq<Seq<char>>
    decreases ns.len(),
{
    if ns.len() == 0 {
        seq![]
    } else {
        match ns.last() {
            NodeModel::Image { url, .. } => push_new(images_of(ns.drop_last()), url),
            _ => images_of(ns.drop_last()),
        }
    }
}

/// The resource URLs referenced by a document, without repeats.
#[derive(Debug, Clone)]
pub struct ResourceUrls {
    /// Font paths from `@style` directives.
    pub fonts: Vec<String>,
    /// Image paths from `@image` directives.
    pub images: Vec<String>,
}

fn push_unique(v: &mut Vec<String>, x: &String)
    ensures
        strings_model(final(v)@) == push_new(strings_model(old(v)@), x@),
{
    let ghost m = strings_model(v@);
    let mut i: usize = 0;
    while i < v.len()
        invariant
            m == strings_model(v@),
            i <= v@.len(),
            forall|j: int| 0 <= j < i ==> v@[j]@ != x@,
        decreases v@.len() - i,
    {
        if str_eq(v[i].as_str(), x.as_str()) {
            assert(m[i as int] == x@);
            return;
        }
        i = i + 1;
    }
    assert(!m.contains(x@)) by {
        if m.contains(x@) {
            let j = choose|j: int| 0 <= j < m.len() && m[j] == x@;
            assert(v@[j]@ == x@);
        }
    }
    v.push(x.clone());
    assert(strings_model(v@) == m.push(x@));
}

/// Extract the font and image URLs a document refers to, each once, in
/// order of first use.
pub fn collect_resources(nodes: &[Node]) -> (r: ResourceUrls)
    ensures
        strings_model(r.fonts@) == fonts_of(nodes_model(nodes@)),
        strings_model(r.images@) == images_of(nodes_model(nodes@)),
{
    let ghost ns = nodes_model(nodes@);
    let mut fonts: Vec<String> = Vec::new();
    let mut images: Vec<String> = Vec::new();
    let mut i: usize = 0;
    while i < nodes.len()
        invariant
            ns == nodes_model(nodes@),
            i <= nodes@.len(),
            strings_model(fonts@) == fonts_of(ns.take(i as int)),
            strings_model(images@) == images_of(ns.take(i as int)),
        decreases nodes@.len() - i,
    {
        assert(ns.take(i + 1).drop_last() == ns.take(i as int));
        assert(ns.take(i + 1).last() == nodes@[i as int]@);
        match &nodes[i] {
            Node::Style { font, .. } => push_unique(&mut fonts, font),
            Node::Image { url, .. } => push_unique(&mut images, url),
            _ => {},
        }
        i = i + 1;
    }
    assert(ns.take(i as int) == ns);
    ResourceUrls { fonts, images }
}

/// No text occurs twice.
pub open spec fn no_repeats(v: Seq<Seq<char>>) -> bool {
    forall|i: int, j: int| 0 <= i < j < v.len() ==> v[i] != v[j]
}

proof fn lemma_push_new(v: Seq<Seq<char>>, x: Seq<char>)
    requires
        no_repeats(v),
    ensures
        no_repeats(push_new(v, x)),
        push_new(v, x).contains(x),
        forall|y: Seq<char>| #[trigger] push_new(v, x).contains(y) <==> (v.contains(y) || y == x),
{
    if !v.contains(x) {
        let w = v.push(x);
        assert(w[v.len() as int] == x);
        assert forall|y: Seq<char>| #[trigger] w.contains(y) <==> (v.contains(y) || y == x) by {
            if w.contains(y) {
                let k = choose|k: int| 0 <= k < w.len() && w[k] == y;
                if k < v.len() {
                    assert(v[k] == y);
                }
            }
            if v.contains(y) {
                let k = choose|k: int| 0 <= k < v.len() && v[k] == y;
                assert(w[k] == y);
            }
        }
    }
}

/// The fonts collected from a document are each listed once, and they are
/// exactly the fonts its `@style` directives name.
pub proof fn law_fonts_collected(ns: Seq<NodeModel>)
    ensures
        no_repeats(fonts_of(ns)),
        forall|f: Seq<char>| #[trigger] fonts_of(ns).contains(f) <==> exists|i: int| 0 <= i < ns.len() && (#[trigger] ns[i] matches NodeModel::Style { font, .. } && font == f),
    decreases ns.len(),
{
    if ns.len() > 0 {
        let pre = ns.drop_last();
        law_fonts_collected(pre);
        match ns.last() {
            NodeModel::Style { font, .. } => lemma_push_new(fonts_of(pre), font),
            _ => {},
        }
        assert forall|f: Seq<char>| #[trigger] fonts_of(ns).contains(f) <==> exists|i: int| 0 <= i < ns.len() && (#[trigger] ns[i] matches NodeModel::Style { font, .. } && font == f) by {
            if exists|i: int| 0 <= i < ns.len() && (#[trigger] ns[i] matches NodeModel::Style { font, .. } && font == f) {
                let i = choose|i: int| 0 <= i < ns.len() && (#[trigger] ns[i] matches NodeModel::Style { font, .. } && font == f);
                if i < ns.len() - 1 {
                    assert(pre[i] == ns[i]);
                }
            }
            if exists|i: int| 0 <= i < pre.len() && (#[trigger] pre[i] matches NodeModel::Style { font, .. } && font == f) {
                let i = choose|i: int| 0 <= i < pre.len() && (#[trigger] pre[i] matches NodeModel::Style { font, .. } && font == f);
                assert(ns[i] == pre[i]);
            }
        }
    }
}

/// The images collected from a document are each listed once, and they are
/// exactly the URLs its `@image` directives name.
pub proof fn law_images_collected(ns: Seq<NodeModel>)
    ensures
        no_repeats(images_of(ns)),
        forall|u: Seq<char>| #[trigger] images_of(ns).contains(u) <==> exists|i: int| 0 <= i < ns.len() && (#[trigger] ns[i] matches NodeModel::Image { url, .. } && url == u),
    decreases ns.len(),
{
    if ns.len() > 0 {
        let pre = ns.drop_last();
        law_images_collected(pre);
        match ns.last() {
            NodeModel::Image { url, .. } => lemma_push_new(images_of(pre), url),
            _ => {},
        }
        assert forall|u: Seq<char>| #[trigger] images_of(ns).contains(u) <==> exists|i: int| 0 <= i < ns.len() && (#[trigger] ns[i] matches NodeModel::Image { url, .. } && url == u) by {
            if exists|i: int| 0 <= i < ns.len() && (#[trigger] ns[i] matches NodeModel::Image { url, .. } && url == u) {
                let i = choose|i: int| 0 <= i < ns.len() && (#[trigger] ns[i] matches NodeModel::Image { url, .. } && url == u);
                if i < ns.len() - 1 {
                    assert(pre[i] == ns[i]);
                }
            }
            if exists|i: int| 0 <= i < pre.len() && (#[trigger] pre[i] matches NodeModel::Image { url, .. } && url == u) {
                let i = choose|i: int| 0 <= i < pre.len() && (#[trigger] pre[i] matches NodeModel::Image { url, .. } && url == u);
                assert(ns[i] == pre[i]);
            }
        }
    }
}

} // verus!
