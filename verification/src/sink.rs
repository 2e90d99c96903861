//! The tree-construction adapter.
//!
//! An external HTML5 parsing engine drives one [`Sink`] through the fixed
//! callback set of its tree-construction stage, one call at a time and in
//! tree-construction order. The sink owns the document being built, keeps
//! the three per-node registries (element names, template contents, MathML
//! text-integration points), stamps parse errors with the current line, and
//! is finally consumed into a [`crate::parse_result::ParseResult`].

use vstd::prelude::*;
use vstd::pervasive::unreached;

use crate::dom::Attribute;
use crate::dom::Dom;
use crate::dom::NodeData;
use crate::dom::QualifiedName;
use crate::error_container::Error;
use crate::error_container::ErrorContainer;
use crate::handle::Handle;
use crate::parse_result::ParseResult;

verus! {

/// Creation flags for an element, as the tree-construction contract
/// supplies them.
#[derive(PartialEq, Eq, Structural, Clone, Copy, Debug)]
pub struct ElementFlags {
    /// The element is a template: a separate fragment node holds its
    /// logical content subtree.
    pub template: bool,
    /// The element is a MathML text-integration point.
    pub mathml_annotation_xml_integration_point: bool,
}

/// What the engine hands to an insertion callback: either an existing node
/// or an inline text chunk that must first be materialized as a fresh text
/// node (each chunk becomes a new node, never a reused one).
#[derive(Debug)]
pub enum NodeOrText {
    AppendNode(Handle),
    AppendText(String),
}

/// The engine's quirks-mode notification. The adapter does no layout, so
/// the mode is accepted and ignored.
#[derive(PartialEq, Eq, Structural, Clone, Copy, Debug)]
pub enum QuirksMode {
    Quirks,
    LimitedQuirks,
    NoQuirks,
}

/// Whether some attribute in `attrs` has local name `local`.
pub open spec fn has_attr_local(attrs: Seq<Attribute>, local: Seq<char>) -> bool {
    exists|k: int| 0 <= k < attrs.len() && attrs[k].name.local@ == local
}

/// The attribute list after a merge that keeps existing attributes: the
/// supplied attributes are walked in order, and each is appended only when
/// no attribute gathered so far shares its local name.
pub open spec fn merge_missing(attrs: Seq<Attribute>, new: Seq<Attribute>) -> Seq<Attribute>
    decreases new.len(),
{
    if new.len() == 0 {
        attrs
    } else if has_attr_local(attrs, new[0].name.local@) {
        merge_missing(attrs, new.drop_first())
    } else {
        merge_missing(attrs.push(new[0]), new.drop_first())
    }
}

/// The integration-point registry after one element creation: one entry for
/// the element carrying the supplied flag, and one more `false` entry for
/// the content fragment when the element is a template.
pub open spec fn integration_after_create(before: Seq<bool>, flags: ElementFlags) -> Seq<bool> {
    if flags.template {
        before.push(flags.mathml_annotation_xml_integration_point).push(false)
    } else {
        before.push(flags.mathml_annotation_xml_integration_point)
    }
}

/// Effect of materializing one non-element node (text, comment, processing
/// instruction, doctype): it is appended to the arena detached and
/// childless, and every registry gains the empty entry for it. Everything
/// already present is untouched.
pub open spec fn plain_create_effect(pre: Sink, post: Sink, h: Handle, data: NodeData) -> bool {
    &&& h.0 as int == pre.dom.spec_len()
    &&& post.dom.spec_len() == pre.dom.spec_len() + 1
    &&& post.dom.data@ == pre.dom.data@.push(data)
    &&& post.dom.parent@ == pre.dom.parent@.push(None)
    &&& (forall|q: int|
        0 <= q < pre.dom.spec_len() ==> #[trigger] post.dom.children@[q] == pre.dom.children@[q])
    &&& (forall|q: int|
        0 <= q < pre.dom.spec_len() ==> #[trigger] post.dom.attrs@[q] == pre.dom.attrs@[q])
    &&& (forall|q: int|
        0 <= q < pre.dom.spec_len() ==> #[trigger] post.dom.child_seq(q) == pre.dom.child_seq(q))
    &&& (forall|q: int|
        0 <= q < pre.dom.spec_len() ==> #[trigger] post.dom.attr_seq(q) == pre.dom.attr_seq(q))
    &&& post.dom.child_seq(h.0 as int).len() == 0
    &&& post.dom.attr_seq(h.0 as int).len() == 0
    &&& post.names@ == pre.names@.push(None)
    &&& post.template_contents@ == pre.template_contents@.push(None)
    &&& post.integration_points@ == pre.integration_points@.push(false)
    &&& post.current_line == pre.current_line
    &&& post.error_container == pre.error_container
}

/// What `append` may be asked to do: the target must exist, and an existing
/// node handed in must be neither the document nor the target itself.
pub open spec fn append_requires(pre: Sink, p: usize, child: NodeOrText) -> bool {
    &&& (p as int) < pre.dom.spec_len()
    &&& (child matches NodeOrText::AppendNode(hh) ==> (hh.0 as int) < pre.dom.spec_len() && hh.0
        != 0 && hh.0 != p)
}

/// Effect of appending the existing node `c` under `p`: `c` leaves its old
/// sibling chain (if it was linked) and becomes `p`'s last child; nothing
/// else moves, and no registry, diagnostic or node payload changes.
pub open spec fn node_append_effect(pre: Sink, post: Sink, p: usize, c: usize) -> bool {
    &&& post.dom.spec_len() == pre.dom.spec_len()
    &&& post.dom.data@ == pre.dom.data@
    &&& post.dom.attrs@ == pre.dom.attrs@
    &&& post.dom.parent@ == pre.dom.parent@.update(c as int, Some(p))
    &&& post.dom.child_seq(p as int) == pre.dom.child_seq_unlinked(p, c).push(c)
    &&& (forall|q: usize|
        (q as int) < pre.dom.spec_len() && q != p ==> #[trigger] post.dom.child_seq(q as int)
            == pre.dom.child_seq_unlinked(q, c))
    &&& post.names == pre.names
    &&& post.template_contents == pre.template_contents
    &&& post.integration_points == pre.integration_points
    &&& post.current_line == pre.current_line
    &&& post.error_container == pre.error_container
}

/// Effect of appending an inline text chunk under `p`: a fresh text node is
/// materialized (never a reused one) and becomes `p`'s last child.
pub open spec fn text_append_effect(pre: Sink, post: Sink, p: usize, t: String) -> bool {
    let h0 = pre.dom.data@.len() as usize;
    &&& post.dom.spec_len() == pre.dom.spec_len() + 1
    &&& post.dom.data@ == pre.dom.data@.push((NodeData::Text { text: t }))
    &&& post.dom.parent@ == pre.dom.parent@.push(Some(p))
    &&& post.dom.child_seq(p as int) == pre.dom.child_seq(p as int).push(h0)
    &&& (forall|q: int|
        0 <= q < pre.dom.spec_len() && q != p as int ==> #[trigger] post.dom.child_seq(q)
            == pre.dom.child_seq(q))
    &&& post.dom.child_seq(h0 as int).len() == 0
    &&& (forall|q: int|
        0 <= q < pre.dom.spec_len() ==> #[trigger] post.dom.attrs@[q] == pre.dom.attrs@[q])
    &&& post.names@ == pre.names@.push(None)
    &&& post.template_contents@ == pre.template_contents@.push(None)
    &&& post.integration_points@ == pre.integration_points@.push(false)
    &&& post.current_line == pre.current_line
    &&& post.error_container == pre.error_container
}

/// Effect of `append`, by the kind of thing appended.
pub open spec fn append_effect(pre: Sink, post: Sink, p: usize, child: NodeOrText) -> bool {
    match child {
        NodeOrText::AppendNode(hh) => node_append_effect(pre, post, p, hh.0),
        NodeOrText::AppendText(t) => text_append_effect(pre, post, p, t),
    }
}

/// What sibling insertion may be asked to do: the sibling must exist and be
/// linked into a sibling chain, and an existing node handed in must be
/// neither the document nor the sibling itself.
pub open spec fn sibling_insert_requires(pre: Sink, sib: usize, child: NodeOrText) -> bool {
    &&& (sib as int) < pre.dom.spec_len()
    &&& pre.dom.parent@[sib as int] is Some
    &&& (child matches NodeOrText::AppendNode(hh) ==> (hh.0 as int) < pre.dom.spec_len() && hh.0
        != 0 && hh.0 != sib)
}

/// Effect of inserting the existing node `c` immediately before `sib`: `c`
/// leaves its old place (possibly in the same chain), and lands directly
/// before `sib` under `sib`'s parent.
pub open spec fn node_sibling_insert_effect(pre: Sink, post: Sink, sib: usize, c: usize) -> bool {
    match pre.dom.parent@[sib as int] {
        Some(p) => {
            let base = pre.dom.child_seq_unlinked(p, c);
            &&& post.dom.spec_len() == pre.dom.spec_len()
            &&& post.dom.data@ == pre.dom.data@
            &&& post.dom.attrs@ == pre.dom.attrs@
            &&& post.dom.parent@ == pre.dom.parent@.update(c as int, Some(p))
            &&& post.dom.child_seq(p as int) == base.insert(base.index_of_first(sib).unwrap(), c)
            &&& (forall|q: usize|
                (q as int) < pre.dom.spec_len() && q != p ==> #[trigger] post.dom.child_seq(
                    q as int,
                ) == pre.dom.child_seq_unlinked(q, c))
            &&& post.names == pre.names
            &&& post.template_contents == pre.template_contents
            &&& post.integration_points == pre.integration_points
            &&& post.current_line == pre.current_line
            &&& post.error_container == pre.error_container
        },
        None => false,
    }
}

/// Effect of inserting an inline text chunk immediately before `sib`: a
/// fresh text node lands directly before `sib` under `sib`'s parent.
pub open spec fn text_sibling_insert_effect(pre: Sink, post: Sink, sib: usize, t: String) -> bool {
    match pre.dom.parent@[sib as int] {
        Some(p) => {
            let h0 = pre.dom.data@.len() as usize;
            let base = pre.dom.child_seq(p as int);
            &&& post.dom.spec_len() == pre.dom.spec_len() + 1
            &&& post.dom.data@ == pre.dom.data@.push((NodeData::Text { text: t }))
            &&& post.dom.parent@ == pre.dom.parent@.push(Some(p))
            &&& post.dom.child_seq(p as int) == base.insert(base.index_of_first(sib).unwrap(), h0)
            &&& (forall|q: int|
                0 <= q < pre.dom.spec_len() && q != p as int ==> #[trigger] post.dom.child_seq(q)
                    == pre.dom.child_seq(q))
            &&& post.dom.child_seq(h0 as int).len() == 0
            &&& (forall|q: int|
                0 <= q < pre.dom.spec_len() ==> #[trigger] post.dom.attrs@[q]
                    == pre.dom.attrs@[q])
            &&& post.names@ == pre.names@.push(None)
            &&& post.template_contents@ == pre.template_contents@.push(None)
            &&& post.integration_points@ == pre.integration_points@.push(false)
            &&& post.current_line == pre.current_line
            &&& post.error_container == pre.error_container
        },
        None => false,
    }
}

/// Effect of `append_before_sibling`, by the kind of thing inserted.
pub open spec fn sibling_insert_effect(pre: Sink, post: Sink, sib: usize, child: NodeOrText) -> bool {
    match child {
        NodeOrText::AppendNode(hh) => node_sibling_insert_effect(pre, post, sib, hh.0),
        NodeOrText::AppendText(t) => text_sibling_insert_effect(pre, post, sib, t),
    }
}

/// The tree-construction adapter: the document under construction, the
/// three registries keyed by node, the line stamp for diagnostics, and the
/// diagnostics collected so far.
#[derive(Debug)]
pub struct Sink {
    pub dom: Dom,
    /// Name registry: `Some` exactly for element nodes.
    pub names: Vec<Option<QualifiedName>>,
    /// Template registry: `Some` exactly for elements created with the
    /// template flag; the entry is the content fragment's node.
    pub template_contents: Vec<Option<usize>>,
    /// Integration-point registry: `true` for handles flagged at creation.
    pub integration_points: Vec<bool>,
    /// 1-based line number stamped on subsequent parse errors.
    pub current_line: u64,
    pub error_container: ErrorContainer,
}

impl Sink {
    /// Well-formedness: the tree is well-formed, the registries cover
    /// exactly the allocated nodes, names mark exactly the elements, and a
    /// template entry points at a distinct fragment node.
    pub open spec fn wf(self) -> bool {
        &&& self.dom.wf()
        &&& self.names@.len() == self.dom.data@.len()
        &&& self.template_contents@.len() == self.dom.data@.len()
        &&& self.integration_points@.len() == self.dom.data@.len()
        &&& (forall|i: int|
            0 <= i < self.dom.spec_len() ==> ((#[trigger] self.names@[i]) is Some
                <==> self.dom.data@[i] is Element))
        &&& (forall|i: int|
            0 <= i < self.dom.spec_len() ==> ((#[trigger] self.template_contents@[i])
                matches Some(f) ==> {
                &&& self.dom.data@[i] is Element
                &&& (f as int) < self.dom.spec_len()
                &&& (f as int) != i
                &&& self.dom.data@[f as int] is Fragment
            }))
    }

    /// Whether `h` was flagged as a MathML text-integration point at
    /// creation.
    pub open spec fn spec_is_integration_point(self, h: Handle) -> bool {
        (h.0 as int) < self.integration_points@.len() && self.integration_points@[h.0 as int]
    }

    /// The parts of the adapter that a non-mutating or error-only callback
    /// leaves alone: the tree and all three registries.
    pub open spec fn same_structure(pre: Sink, post: Sink) -> bool {
        &&& post.dom == pre.dom
        &&& post.names == pre.names
        &&& post.template_contents == pre.template_contents
        &&& post.integration_points == pre.integration_points
    }

    /// A fresh adapter owning an empty document, line counter 1, and no
    /// diagnostics.
    pub fn new() -> (r: Sink)
        ensures
            r.wf(),
            r.dom.spec_len() == 1,
            r.dom.data@[0] is Document,
            r.dom.child_seq(0).len() == 0,
            r.dom.attr_seq(0).len() == 0,
            r.names@[0] is None,
            r.template_contents@[0] is None,
            r.integration_points@ =~= seq![false],
            r.current_line == 1,
            r.error_container.errors@.len() == 0,
    {
        let dom = Dom::new();
        let mut names: Vec<Option<QualifiedName>> = Vec::new();
        names.push(None);
        let mut template_contents: Vec<Option<usize>> = Vec::new();
        template_contents.push(None);
        let mut integration_points: Vec<bool> = Vec::new();
        integration_points.push(false);
        Sink {
            dom,
            names,
            template_contents,
            integration_points,
            current_line: 1,
            error_container: ErrorContainer::new(),
        }
    }

    /// Appends `(current_line, msg)` to the diagnostics; never aborts and
    /// never touches the tree.
    pub fn parse_error(&mut self, msg: String)
        ensures
            Self::same_structure(*old(self), *final(self)),
            final(self).current_line == old(self).current_line,
            final(self).error_container.errors@ == old(self).error_container.errors@.push(
                (Error { line: old(self).current_line, msg }),
            ),
    {
        let line = self.current_line;
        self.error_container.add(line, msg);
    }

    /// Updates the line counter stamped on subsequent errors.
    pub fn set_current_line(&mut self, line: u64)
        ensures
            Self::same_structure(*old(self), *final(self)),
            final(self).current_line == line,
            final(self).error_container == old(self).error_container,
    {
        self.current_line = line;
    }

    /// The document's own handle.
    pub fn get_document(&mut self) -> (r: Handle)
        ensures
            *final(self) == *old(self),
            r.0 == 0,
    {
        Handle(0)
    }

    /// Handle identity comparison.
    pub fn same_node(&self, x: &Handle, y: &Handle) -> (r: bool)
        ensures
            r == (x.0 == y.0),
    {
        x.0 == y.0
    }

    /// Membership test against the integration-point registry.
    pub fn is_mathml_annotation_xml_integration_point(&self, handle: &Handle) -> (r: bool)
        ensures
            r == self.spec_is_integration_point(*handle),
    {
        if handle.0 < self.integration_points.len() {
            self.integration_points[handle.0]
        } else {
            false
        }
    }

    /// The adapter does no layout; the notified mode is ignored.
    pub fn set_quirks_mode(&mut self, _mode: QuirksMode)
        ensures
            *final(self) == *old(self),
    {
    }

    /// End of input: no further tree mutation; the adapter is handed back
    /// unchanged, ready to be consumed into a result.
    pub fn finish(self) -> (r: Self)
        ensures
            r == self,
    {
        self
    }

    /// Allocates one detached non-element node and its empty registry
    /// entries.
    fn new_plain_node(&mut self, data: NodeData) -> (h: Handle)
        requires
            old(self).wf(),
            !(data is Element),
        ensures
            final(self).wf(),
            plain_create_effect(*old(self), *final(self), h, data),
    {
        let h = self.dom.new_node(data, Vec::new());
        self.names.push(None);
        self.template_contents.push(None);
        self.integration_points.push(false);
        proof {
            let pre = *old(self);
            let post = *self;
            assert(post.wf()) by {
                assert forall|i: int| 0 <= i < post.dom.spec_len() implies ((
                #[trigger] post.names@[i]) is Some <==> post.dom.data@[i] is Element) by {
                    if i < pre.dom.spec_len() {
                        assert(post.names@[i] == pre.names@[i]);
                        assert(post.dom.data@[i] == pre.dom.data@[i]);
                    } else {
                        assert(post.names@[i] is None);
                        assert(post.dom.data@[i] == data);
                    }
                }
                assert forall|i: int|
                    0 <= i < post.dom.spec_len() implies ((#[trigger] post.template_contents@[i])
                    matches Some(f) ==> {
                    &&& post.dom.data@[i] is Element
                    &&& (f as int) < post.dom.spec_len()
                    &&& (f as int) != i
                    &&& post.dom.data@[f as int] is Fragment
                }) by {
                    if i < pre.dom.spec_len() {
                        assert(post.template_contents@[i] == pre.template_contents@[i]);
                        match pre.template_contents@[i] {
                            Some(f) => {
                                assert(post.dom.data@[i] == pre.dom.data@[i]);
                                assert(post.dom.data@[f as int] == pre.dom.data@[f as int]);
                            },
                            None => {},
                        }
                    } else {
                        assert(post.template_contents@[i] is None);
                    }
                }
            }
        }
        Handle(h)
    }

    /// Allocates a comment node carrying `text`; never registered as an
    /// element.
    pub fn create_comment(&mut self, text: String) -> (h: Handle)
        requires
            old(self).wf(),
        ensures
            final(self).wf(),
            plain_create_effect(*old(self), *final(self), h, (NodeData::Comment { text })),
    {
        self.new_plain_node(NodeData::Comment { text })
    }

    /// Allocates a processing-instruction node; never registered as an
    /// element.
    pub fn create_pi(&mut self, target: String, data: String) -> (h: Handle)
        requires
            old(self).wf(),
        ensures
            final(self).wf(),
            plain_create_effect(
                *old(self),
                *final(self),
                h,
                (NodeData::ProcessingInstruction { target, data }),
            ),
    {
        self.new_plain_node(NodeData::ProcessingInstruction { target, data })
    }

    /// Creates the document's internal subset declaration and appends it to
    /// the document node. When both identifiers are the empty string they
    /// are recorded as absent, which is distinct from present-but-empty;
    /// any other combination is recorded as given.
    pub fn append_doctype_to_document(&mut self, name: String, public_id: String, system_id: String)
        requires
            old(self).wf(),
        ensures
            final(self).wf(),
            final(self).dom.spec_len() == old(self).dom.spec_len() + 1,
            ({
                let absent = public_id@.len() == 0 && system_id@.len() == 0;
                let d = if absent {
                    (NodeData::Doctype { name, public_id: None, system_id: None })
                } else {
                    (NodeData::Doctype {
                        name,
                        public_id: Some(public_id),
                        system_id: Some(system_id),
                    })
                };
                final(self).dom.data@ == old(self).dom.data@.push(d)
            }),
            final(self).dom.parent@ == old(self).dom.parent@.push(Some(0usize)),
            final(self).dom.child_seq(0) == old(self).dom.child_seq(0).push(
                (old(self).dom.data@.len() as usize),
            ),
            forall|q: int|
                0 < q < old(self).dom.spec_len() ==> #[trigger] final(self).dom.child_seq(q) == old(self).dom.child_seq(q),
            forall|q: int|
                0 <= q < old(self).dom.spec_len() ==> #[trigger] final(self).dom.attr_seq(q) == old(self).dom.attr_seq(q),
            final(self).names@ == old(self).names@.push(None),
            final(self).template_contents@ == old(self).template_contents@.push(None),
            final(self).integration_points@ == old(self).integration_points@.push(false),
            final(self).current_line == old(self).current_line,
            final(self).error_container == old(self).error_container,
    {
        let absent = public_id.as_str().is_empty() && system_id.as_str().is_empty();
        let d = if absent {
            NodeData::Doctype { name, public_id: None, system_id: None }
        } else {
            NodeData::Doctype { name, public_id: Some(public_id), system_id: Some(system_id) }
        };
        let h = self.new_plain_node(d);
        self.dom.link_last(0, h.0);
        proof {
            let pre = *old(self);
            let post = *self;
            assert(post.dom.parent@ =~= pre.dom.parent@.push(Some(0usize)));
            assert(post.dom.child_seq(0) == pre.dom.child_seq(0).push(h.0));
            assert forall|q: int| 0 <= q < pre.dom.spec_len() implies #[trigger] post.dom.attr_seq(
                q,
            ) == pre.dom.attr_seq(q) by {
                assert(post.dom.attrs@[q] == pre.dom.attrs@[q]);
            }
        }
    }

    /// Allocates an element node under the document: applies the local
    /// name, applies every supplied attribute independently and in order
    /// (duplicates are kept; the caller supplies an already-deduplicated
    /// set), and registers the qualified name. With the template flag a
    /// fresh fragment node is allocated and registered as the element's
    /// template content; with the integration-point flag the handle is
    /// marked in the integration-point registry.
    pub fn create_element(
        &mut self,
        name: QualifiedName,
        attributes: Vec<Attribute>,
        flags: ElementFlags,
    ) -> (h: Handle)
        requires
            old(self).wf(),
        ensures
            final(self).wf(),
            h.0 as int == old(self).dom.spec_len(),
            final(self).dom.spec_len() == old(self).dom.spec_len() + (
            if flags.template {
                2int
            } else {
                1int
            }),
            final(self).dom.data@[h.0 as int] == (NodeData::Element { name: name.local }),
            final(self).dom.attr_seq(h.0 as int) == attributes@,
            final(self).dom.parent@[h.0 as int] is None,
            final(self).dom.child_seq(h.0 as int).len() == 0,
            final(self).names@[h.0 as int] == Some(name),
            flags.template ==> ({
                let post = *final(self);
                post.template_contents@[h.0 as int] matches Some(f) && f as int == old(self).dom.spec_len() + 1 && post.dom.data@[f as int] is Fragment
                    && post.dom.parent@[f as int] is None && post.dom.child_seq(f as int).len()
                    == 0 && post.names@[f as int] is None
            }),
            !flags.template ==> final(self).template_contents@[h.0 as int] is None,
            final(self).integration_points@ == integration_after_create(
                old(self).integration_points@,
                flags,
            ),
            forall|q: int|
                0 <= q < old(self).dom.spec_len() ==> {
                    &&& final(self).dom.data@[q] == old(self).dom.data@[q]
                    &&& final(self).dom.parent@[q] == old(self).dom.parent@[q]
                    &&& #[trigger] final(self).dom.child_seq(q) == old(self).dom.child_seq(q)
                    &&& final(self).dom.attr_seq(q) == old(self).dom.attr_seq(q)
                    &&& final(self).names@[q] == old(self).names@[q]
                    &&& final(self).template_contents@[q] == old(self).template_contents@[q]
                },
            final(self).current_line == old(self).current_line,
            final(self).error_container == old(self).error_container,
    {
        let local = name.local.clone();
        let h = self.dom.new_node(NodeData::Element { name: local }, attributes);
        self.names.push(Some(name));
        self.template_contents.push(None);
        self.integration_points.push(flags.mathml_annotation_xml_integration_point);
        if flags.template {
            let f = self.dom.new_node(NodeData::Fragment, Vec::new());
            self.names.push(None);
            self.template_contents.push(None);
            self.integration_points.push(false);
            self.template_contents.set(h, Some(f));
        }
        proof {
            let pre = *old(self);
            let post = *self;
            assert(post.wf()) by {
                assert forall|i: int| 0 <= i < post.dom.spec_len() implies ((
                #[trigger] post.names@[i]) is Some <==> post.dom.data@[i] is Element) by {
                    if i < pre.dom.spec_len() {
                        assert(post.names@[i] == pre.names@[i]);
                        assert(post.dom.data@[i] == pre.dom.data@[i]);
                    }
                }
                assert forall|i: int|
                    0 <= i < post.dom.spec_len() implies ((#[trigger] post.template_contents@[i])
                    matches Some(f) ==> {
                    &&& post.dom.data@[i] is Element
                    &&& (f as int) < post.dom.spec_len()
                    &&& (f as int) != i
                    &&& post.dom.data@[f as int] is Fragment
                }) by {
                    if i < pre.dom.spec_len() {
                        assert(post.template_contents@[i] == pre.template_contents@[i]);
                        match pre.template_contents@[i] {
                            Some(f) => {
                                assert(post.dom.data@[i] == pre.dom.data@[i]);
                                assert(post.dom.data@[f as int] == pre.dom.data@[f as int]);
                            },
                            None => {},
                        }
                    }
                }
            }
        }
        Handle(h)
    }

    /// Name-registry lookup. Only the driving engine's guarantee that
    /// `target` is an element makes the call legal; on any other handle the
    /// adapter's caller contract is broken, which a caller must treat as
    /// fatal rather than recoverable.
    pub fn elem_name(&self, target: &Handle) -> (r: &QualifiedName)
        requires
            self.wf(),
            (target.0 as int) < self.dom.spec_len(),
            self.names@[target.0 as int] is Some,
        ensures
            self.names@[target.0 as int] == Some(*r),
    {
        match &self.names[target.0] {
            Some(q) => q,
            None => unreached(),
        }
    }

    /// Template-registry lookup. Only legal for a handle created with the
    /// template flag; anything else is a broken caller contract and must be
    /// treated as fatal by the caller.
    pub fn get_template_contents(&mut self, target: &Handle) -> (r: Handle)
        requires
            old(self).wf(),
            (target.0 as int) < old(self).dom.spec_len(),
            old(self).template_contents@[target.0 as int] is Some,
        ensures
            *final(self) == *old(self),
            Some(r.0) == old(self).template_contents@[target.0 as int],
            r.0 != target.0,
    {
        match self.template_contents[target.0] {
            Some(f) => Handle(f),
            None => unreached(),
        }
    }

    /// Appends under `parent`. Inline text is materialized as a fresh text
    /// node first; an existing node is unlinked from wherever it stands and
    /// linked as `parent`'s last child.
    pub fn append(&mut self, parent: &Handle, child: NodeOrText)
        requires
            old(self).wf(),
            append_requires(*old(self), parent.0, child),
        ensures
            final(self).wf(),
            append_effect(*old(self), *final(self), parent.0, child),
    {
        let p = parent.0;
        match child {
            NodeOrText::AppendNode(hh) => {
                let c = hh.0;
                self.dom.unlink(c);
                self.dom.link_last(p, c);
                proof {
                    let pre = *old(self);
                    let post = *self;
                    assert(post.dom.parent@ =~= pre.dom.parent@.update(c as int, Some(p)));
                    assert(post.dom.child_seq(p as int) == pre.dom.child_seq_unlinked(p, c).push(
                        c,
                    )) by {
                        match pre.dom.parent@[c as int] {
                            Some(pp) => {
                                if pp == p {
                                } else {
                                }
                            },
                            None => {},
                        }
                    }
                    assert forall|q: usize| (q as int) < pre.dom.spec_len() && q != p implies #[trigger] post.dom.child_seq(q as int) == pre.dom.child_seq_unlinked(q, c) by {
                        match pre.dom.parent@[c as int] {
                            Some(pp) => {
                                if pp == q {
                                } else {
                                }
                            },
                            None => {},
                        }
                    }
                }
            },
            NodeOrText::AppendText(t) => {
                let h = self.new_plain_node(NodeData::Text { text: t });
                self.dom.link_last(p, h.0);
                proof {
                    let pre = *old(self);
                    let post = *self;
                    assert(post.dom.parent@ =~= pre.dom.parent@.push(Some(p)));
                    assert(post.dom.child_seq(p as int) == pre.dom.child_seq(p as int).push(h.0));
                    assert(post.dom.child_seq(h.0 as int).len() == 0);
                }
            },
        }
    }

    /// Inserts immediately before `sibling` in its sibling chain. Inline
    /// text is materialized as a fresh text node first; an existing node is
    /// unlinked from wherever it stands before being inserted.
    pub fn append_before_sibling(&mut self, sibling: &Handle, new_node: NodeOrText)
        requires
            old(self).wf(),
            sibling_insert_requires(*old(self), sibling.0, new_node),
        ensures
            final(self).wf(),
            sibling_insert_effect(*old(self), *final(self), sibling.0, new_node),
    {
        let sib = sibling.0;
        match new_node {
            NodeOrText::AppendNode(hh) => {
                let c = hh.0;
                self.dom.unlink(c);
                self.dom.insert_before(sib, c);
                proof {
                    let pre = *old(self);
                    let post = *self;
                    let p = pre.dom.parent@[sib as int].unwrap();
                    assert(post.dom.parent@ =~= pre.dom.parent@.update(c as int, Some(p)));
                    let base = pre.dom.child_seq_unlinked(p, c);
                    assert(post.dom.child_seq(p as int) == base.insert(
                        base.index_of_first(sib).unwrap(),
                        c,
                    )) by {
                        match pre.dom.parent@[c as int] {
                            Some(pp) => {
                                if pp == p {
                                } else {
                                }
                            },
                            None => {},
                        }
                    }
                    assert forall|q: usize| (q as int) < pre.dom.spec_len() && q != p implies #[trigger] post.dom.child_seq(q as int) == pre.dom.child_seq_unlinked(q, c) by {
                        match pre.dom.parent@[c as int] {
                            Some(pp) => {
                                if pp == q {
                                } else {
                                }
                            },
                            None => {},
                        }
                    }
                }
            },
            NodeOrText::AppendText(t) => {
                let h = self.new_plain_node(NodeData::Text { text: t });
                self.dom.insert_before(sib, h.0);
                proof {
                    let pre = *old(self);
                    let post = *self;
                    let p = pre.dom.parent@[sib as int].unwrap();
                    assert(post.dom.parent@ =~= pre.dom.parent@.push(Some(p)));
                    assert(post.dom.child_seq(h.0 as int).len() == 0);
                }
            },
        }
    }

    /// Resolves the sibling-vs-child insertion ambiguity: when `element`
    /// currently has a tree parent, `child` is inserted immediately before
    /// `element`; otherwise `child` is appended under `fallback_parent`.
    pub fn append_based_on_parent_node(
        &mut self,
        element: &Handle,
        fallback_parent: &Handle,
        child: NodeOrText,
    )
        requires
            old(self).wf(),
            (element.0 as int) < old(self).dom.spec_len(),
            old(self).dom.parent@[element.0 as int] is Some ==> sibling_insert_requires(
                *old(self),
                element.0,
                child,
            ),
            old(self).dom.parent@[element.0 as int] is None ==> append_requires(
                *old(self),
                fallback_parent.0,
                child,
            ),
        ensures
            final(self).wf(),
            old(self).dom.parent@[element.0 as int] is Some ==> sibling_insert_effect(
                *old(self),
                *final(self),
                element.0,
                child,
            ),
            old(self).dom.parent@[element.0 as int] is None ==> append_effect(
                *old(self),
                *final(self),
                fallback_parent.0,
                child,
            ),
    {
        let has_parent = self.dom.parent[element.0].is_some();
        if has_parent {
            self.append_before_sibling(element, child);
        } else {
            self.append(fallback_parent, child);
        }
    }

    /// Unlinks `target` from its parent and sibling chain, if it is linked.
    /// The node stays allocated and keeps its children; it is eligible for
    /// re-insertion.
    pub fn remove_from_parent(&mut self, target: &Handle)
        requires
            old(self).wf(),
            (target.0 as int) < old(self).dom.spec_len(),
        ensures
            final(self).wf(),
            final(self).dom.spec_len() == old(self).dom.spec_len(),
            final(self).dom.data@ == old(self).dom.data@,
            final(self).dom.attrs@ == old(self).dom.attrs@,
            final(self).dom.parent@ == old(self).dom.parent@.update(target.0 as int, None),
            forall|q: usize|
                (q as int) < old(self).dom.spec_len() ==> #[trigger] final(self).dom.child_seq(
                    q as int,
                ) == old(self).dom.child_seq_unlinked(q, target.0),
            final(self).names == old(self).names,
            final(self).template_contents == old(self).template_contents,
            final(self).integration_points == old(self).integration_points,
            final(self).current_line == old(self).current_line,
            final(self).error_container == old(self).error_container,
    {
        let c = target.0;
        self.dom.unlink(c);
        proof {
            let pre = *old(self);
            let post = *self;
            assert forall|q: usize| (q as int) < pre.dom.spec_len() implies #[trigger] post.dom.child_seq(q as int) == pre.dom.child_seq_unlinked(q, c) by {
                match pre.dom.parent@[c as int] {
                    Some(pp) => {
                        if pp == q {
                        } else {
                        }
                    },
                    None => {},
                }
            }
        }
    }

    /// Consumes the adapter into the parse's terminal value: document
    /// ownership and the diagnostics move out, and the registries are
    /// discarded.
    pub fn into_parse_result(self) -> (r: ParseResult)
        ensures
            r.doc == self.dom,
            r.error_container == self.error_container,
            self.wf() ==> r.doc.wf(),
    {
        ParseResult { doc: self.dom, error_container: self.error_container }
    }

    /// Whether `node` already carries an attribute with `name`'s local
    /// name.
    pub fn has_attribute(&self, node: &Handle, name: &QualifiedName) -> (r: bool)
        requires
            self.wf(),
            (node.0 as int) < self.dom.spec_len(),
        ensures
            r == has_attr_local(self.dom.attr_seq(node.0 as int), name.local@),
    {
        let attrs = &self.dom.attrs[node.0];
        let n = attrs.len();
        let mut i: usize = 0;
        while i < n
            invariant
                attrs@ == self.dom.attr_seq(node.0 as int),
                n == attrs@.len(),
                i <= n,
                forall|k: int| 0 <= k < i ==> attrs@[k].name.local@ != name.local@,
            decreases n - i,
        {
            if attrs[i].name.local == name.local {
                proof {
                    assert(self.dom.attr_seq(node.0 as int)[i as int].name.local@ == name.local@);
                    assert(has_attr_local(self.dom.attr_seq(node.0 as int), name.local@));
                }
                return true;
            }
            i += 1;
        }
        false
    }

    /// Appends one attribute to `to`, unconditionally (duplicates are the
    /// caller's concern).
    fn add_attribute(&mut self, to: &Handle, attribute: Attribute)
        requires
            old(self).wf(),
            (to.0 as int) < old(self).dom.spec_len(),
        ensures
            final(self).wf(),
            final(self).dom.attr_seq(to.0 as int) == old(self).dom.attr_seq(to.0 as int).push(
                attribute,
            ),
            forall|q: int|
                0 <= q < old(self).dom.spec_len() && q != to.0 as int ==> #[trigger] final(self).dom.attrs@[q] == old(self).dom.attrs@[q],
            final(self).dom.spec_len() == old(self).dom.spec_len(),
            final(self).dom.data@ == old(self).dom.data@,
            final(self).dom.parent@ == old(self).dom.parent@,
            final(self).dom.children@ == old(self).dom.children@,
            final(self).names == old(self).names,
            final(self).template_contents == old(self).template_contents,
            final(self).integration_points == old(self).integration_points,
            final(self).current_line == old(self).current_line,
            final(self).error_container == old(self).error_container,
    {
        self.dom.attrs[to.0].push(attribute);
        proof {
            let pre = *old(self);
            let post = *self;
            assert(post.dom.children == pre.dom.children);
            assert(post.dom.data == pre.dom.data);
            assert(post.dom.parent == pre.dom.parent);
            assert(post.dom.wf()) by {
                assert forall|p: usize, j: int|
                    (p as int) < post.dom.spec_len() && 0 <= j < post.dom.child_seq(
                        p as int,
                    ).len() implies {
                    let cc = #[trigger] post.dom.child_seq(p as int)[j];
                    &&& (cc as int) < post.dom.spec_len()
                    &&& post.dom.parent@[cc as int] == Some(p)
                } by {
                    assert(post.dom.child_seq(p as int) == pre.dom.child_seq(p as int));
                    assert(pre.dom.child_seq(p as int)[j] == post.dom.child_seq(p as int)[j]);
                }
                assert forall|cc: usize|
                    (cc as int) < post.dom.spec_len() implies ((
                #[trigger] post.dom.parent@[cc as int]) matches Some(p) ==> (p as int)
                    < post.dom.spec_len() && post.dom.child_seq(p as int).contains(cc)) by {
                    match post.dom.parent@[cc as int] {
                        Some(p) => {
                            assert(pre.dom.child_seq(p as int).contains(cc));
                            assert(post.dom.child_seq(p as int) == pre.dom.child_seq(p as int));
                        },
                        None => {},
                    }
                }
                assert forall|p: usize| (p as int) < post.dom.spec_len()
                    implies (#[trigger] post.dom.child_seq(p as int)).no_duplicates() by {
                    assert(post.dom.child_seq(p as int) == pre.dom.child_seq(p as int));
                }
            }
        }
    }

    /// For each supplied attribute, in order: appends it only when `target`
    /// does not yet carry an attribute with the same local name. A repeated
    /// call with an identical set is a no-op.
    pub fn add_attrs_if_missing(&mut self, target: &Handle, attributes: Vec<Attribute>)
        requires
            old(self).wf(),
            (target.0 as int) < old(self).dom.spec_len(),
        ensures
            final(self).wf(),
            final(self).dom.attr_seq(target.0 as int) == merge_missing(
                old(self).dom.attr_seq(target.0 as int),
                attributes@,
            ),
            forall|q: int|
                0 <= q < old(self).dom.spec_len() && q != target.0 as int ==> #[trigger] final(self).dom.attrs@[q] == old(self).dom.attrs@[q],
            final(self).dom.spec_len() == old(self).dom.spec_len(),
            final(self).dom.data@ == old(self).dom.data@,
            final(self).dom.parent@ == old(self).dom.parent@,
            final(self).dom.children@ == old(self).dom.children@,
            final(self).names == old(self).names,
            final(self).template_contents == old(self).template_contents,
            final(self).integration_points == old(self).integration_points,
            final(self).current_line == old(self).current_line,
            final(self).error_container == old(self).error_container,
    {
        let mut rest = attributes;
        while rest.len() > 0
            invariant
                self.wf(),
                (target.0 as int) < self.dom.spec_len(),
                merge_missing(self.dom.attr_seq(target.0 as int), rest@) == merge_missing(
                    old(self).dom.attr_seq(target.0 as int),
                    attributes@,
                ),
                forall|q: int|
                    0 <= q < old(self).dom.spec_len() && q != target.0 as int
                        ==> #[trigger] self.dom.attrs@[q] == old(self).dom.attrs@[q],
                self.dom.spec_len() == old(self).dom.spec_len(),
                self.dom.data@ == old(self).dom.data@,
                self.dom.parent@ == old(self).dom.parent@,
                self.dom.children@ == old(self).dom.children@,
                self.names == old(self).names,
                self.template_contents == old(self).template_contents,
                self.integration_points == old(self).integration_points,
                self.current_line == old(self).current_line,
                self.error_container == old(self).error_container,
            decreases rest@.len(),
        {
            let ghost rest0 = rest@;
            let ghost cur = self.dom.attr_seq(target.0 as int);
            let a = rest.remove(0);
            proof {
                assert(rest@ =~= rest0.drop_first());
                assert(a == rest0[0]);
            }
            if self.has_attribute(target, &a.name) {
                proof {
                    assert(merge_missing(cur, rest0) == merge_missing(cur, rest0.drop_first()));
                }
            } else {
                self.add_attribute(target, a);
                proof {
                    assert(merge_missing(cur, rest0) == merge_missing(
                        cur.push(a),
                        rest0.drop_first(),
                    ));
                }
            }
        }
        proof {
            assert(rest@.len() == 0);
            assert(merge_missing(self.dom.attr_seq(target.0 as int), rest@) == self.dom.attr_seq(
                target.0 as int,
            ));
        }
    }

    /// Moves the entire child list of `node` to become children of
    /// `new_parent`, preserving order, by unlinking and re-appending each
    /// child individually rather than relinking the list wholesale.
    pub fn reparent_children(&mut self, node: &Handle, new_parent: &Handle)
        requires
            old(self).wf(),
            (node.0 as int) < old(self).dom.spec_len(),
            (new_parent.0 as int) < old(self).dom.spec_len(),
            node.0 != new_parent.0,
        ensures
            final(self).wf(),
            final(self).dom.spec_len() == old(self).dom.spec_len(),
            final(self).dom.data@ == old(self).dom.data@,
            final(self).dom.attrs@ == old(self).dom.attrs@,
            final(self).dom.child_seq(node.0 as int).len() == 0,
            final(self).dom.child_seq(new_parent.0 as int) == old(self).dom.child_seq(
                new_parent.0 as int,
            ) + old(self).dom.child_seq(node.0 as int),
            forall|q: int|
                0 <= q < old(self).dom.spec_len() && q != node.0 as int && q != new_parent.0 as int
                    ==> #[trigger] final(self).dom.child_seq(q) == old(self).dom.child_seq(q),
            forall|j: int|
                0 <= j < old(self).dom.child_seq(node.0 as int).len() ==> final(self).dom.parent@[(
                #[trigger] old(self).dom.child_seq(node.0 as int)[j]) as int] == Some(new_parent.0),
            forall|k: usize|
                (k as int) < old(self).dom.spec_len() && !old(self).dom.child_seq(
                    node.0 as int,
                ).contains(k) ==> #[trigger] final(self).dom.parent@[k as int] == old(self).dom.parent@[k as int],
            final(self).names == old(self).names,
            final(self).template_contents == old(self).template_contents,
            final(self).integration_points == old(self).integration_points,
            final(self).current_line == old(self).current_line,
            final(self).error_container == old(self).error_container,
    {
        let from = node.0;
        let to = new_parent.0;
        let ghost s = self.dom.child_seq(from as int);
        let ghost old_to = self.dom.child_seq(to as int);
        let ghost mut i: int = 0;
        while self.dom.children[from].len() > 0
            invariant
                self.wf(),
                (from as int) < self.dom.spec_len(),
                (to as int) < self.dom.spec_len(),
                from != to,
                0 <= i <= s.len(),
                self.dom.child_seq(from as int) == s.subrange(i, s.len() as int),
                self.dom.child_seq(to as int) == old_to + s.subrange(0, i),
                forall|j: int| 0 <= j < i ==> self.dom.parent@[(#[trigger] s[j]) as int] == Some(
                    to,
                ),
                forall|k: usize|
                    (k as int) < old(self).dom.spec_len() && !s.subrange(0, i).contains(k)
                        ==> #[trigger] self.dom.parent@[k as int] == old(self).dom.parent@[k as int],
                forall|q: int|
                    0 <= q < old(self).dom.spec_len() && q != from as int && q != to as int
                        ==> #[trigger] self.dom.child_seq(q) == old(self).dom.child_seq(q),
                self.dom.spec_len() == old(self).dom.spec_len(),
                self.dom.data@ == old(self).dom.data@,
                self.dom.attrs@ == old(self).dom.attrs@,
                self.names == old(self).names,
                self.template_contents == old(self).template_contents,
                self.integration_points == old(self).integration_points,
                self.current_line == old(self).current_line,
                self.error_container == old(self).error_container,
                s == old(self).dom.child_seq(from as int),
                old_to == old(self).dom.child_seq(to as int),
                s.no_duplicates(),
                forall|j: int| 0 <= j < s.len() ==> ((#[trigger] s[j]) as int) < self.dom.spec_len(),
            decreases self.dom.child_seq(from as int).len(),
        {
            let ghost mid0 = *self;
            let n = self.dom.data.len();
            let c = self.dom.children[from][0];
            proof {
                assert(n as int == old(self).dom.spec_len());
                assert(c == s[i]);
                assert(mid0.dom.parent@[c as int] == Some(from));
                assert(s.no_duplicates());
            }
            self.dom.unlink(c);
            proof {
                let mid1 = *self;
                let curlist = mid0.dom.child_seq(from as int);
                curlist.index_of_first_ensures(c);
                let fst = curlist.index_of_first(c).unwrap();
                assert(curlist[0] == c);
                assert(fst == 0) by {
                    if fst > 0 {
                        assert(curlist[0] == c);
                    }
                }
                assert(mid1.dom.child_seq(from as int) == curlist.remove(0));
                assert(curlist.remove(0) =~= s.subrange(i + 1, s.len() as int));
            }
            self.dom.link_last(to, c);
            proof {
                let post = *self;
                assert(post.dom.child_seq(to as int) =~= old_to + s.subrange(0, i + 1)) by {
                    assert(post.dom.child_seq(to as int) == mid0.dom.child_seq_unlinked(to, c).push(
                        c,
                    )) by {
                        assert(mid0.dom.parent@[c as int] == Some(from));
                    }
                    assert(mid0.dom.child_seq_unlinked(to, c) == old_to + s.subrange(0, i));
                    assert(s.subrange(0, i + 1) =~= s.subrange(0, i).push(s[i]));
                }
                assert forall|k: usize|
                    (k as int) < old(self).dom.spec_len() && !s.subrange(0, i + 1).contains(k)
                        implies #[trigger] post.dom.parent@[k as int] == old(self).dom.parent@[k as int] by {
                    assert(k != c) by {
                        assert(s.subrange(0, i + 1)[i] == s[i]);
                    }
                    assert(!s.subrange(0, i).contains(k)) by {
                        if s.subrange(0, i).contains(k) {
                            let w = choose|w: int|
                                0 <= w < i && s.subrange(0, i)[w] == k;
                            assert(s.subrange(0, i + 1)[w] == s[w]);
                        }
                    }
                    assert(mid0.dom.parent@[k as int] == old(self).dom.parent@[k as int]);
                }
                assert(post.dom.parent@ == mid0.dom.parent@.update(c as int, None).update(
                    c as int,
                    Some(to),
                ));
                assert forall|j: int| 0 <= j < i + 1 implies post.dom.parent@[(
                #[trigger] s[j]) as int] == Some(to) by {
                    if j < i {
                        assert(s[j] != s[i]);
                        assert(mid0.dom.parent@[s[j] as int] == Some(to));
                    } else {
                        assert(s[j] == c);
                    }
                }
                assert forall|q: int|
                    0 <= q < old(self).dom.spec_len() && q != from as int && q != to as int
                        implies #[trigger] post.dom.child_seq(q) == old(self).dom.child_seq(q) by {
                    let qu = q as usize;
                    assert(q <= n as int);
                    assert(qu as int == q);
                    assert(qu != from && qu != to);
                    assert(mid0.dom.parent@[c as int] != Some(qu));
                    assert(post.dom.child_seq(q) == mid0.dom.child_seq(q));
                    assert(mid0.dom.child_seq(q) == old(self).dom.child_seq(q));
                }
                i = i + 1;
            }
        }
        proof {
            assert(self.dom.child_seq(from as int).len() == 0);
            assert(i == s.len());
            assert(s.subrange(0, i) =~= s);
            assert(self.dom.child_seq(to as int) == old_to + s);
        }
    }
}

/// A local name present in the accumulator stays present through a merge.
proof fn lemma_merge_missing_monotone(attrs: Seq<Attribute>, new: Seq<Attribute>, local: Seq<char>)
    requires
        has_attr_local(attrs, local),
    ensures
        has_attr_local(merge_missing(attrs, new), local),
    decreases new.len(),
{
    if new.len() == 0 {
    } else if has_attr_local(attrs, new[0].name.local@) {
        lemma_merge_missing_monotone(attrs, new.drop_first(), local);
    } else {
        let k = choose|k: int| 0 <= k < attrs.len() && attrs[k].name.local@ == local;
        assert(attrs.push(new[0])[k].name.local@ == local);
        lemma_merge_missing_monotone(attrs.push(new[0]), new.drop_first(), local);
    }
}

/// After a merge, every supplied local name is present.
proof fn lemma_merge_missing_covers(attrs: Seq<Attribute>, new: Seq<Attribute>, i: int)
    requires
        0 <= i < new.len(),
    ensures
        has_attr_local(merge_missing(attrs, new), new[i].name.local@),
    decreases new.len(),
{
    if i == 0 {
        if has_attr_local(attrs, new[0].name.local@) {
            lemma_merge_missing_monotone(attrs, new.drop_first(), new[0].name.local@);
        } else {
            let pushed = attrs.push(new[0]);
            assert(pushed[attrs.len() as int].name.local@ == new[0].name.local@);
            assert(has_attr_local(pushed, new[0].name.local@));
            lemma_merge_missing_monotone(pushed, new.drop_first(), new[0].name.local@);
        }
    } else {
        assert(new.drop_first()[i - 1] == new[i]);
        if has_attr_local(attrs, new[0].name.local@) {
            lemma_merge_missing_covers(attrs, new.drop_first(), i - 1);
        } else {
            lemma_merge_missing_covers(attrs.push(new[0]), new.drop_first(), i - 1);
        }
    }
}

/// Merging attributes whose local names are all present already changes
/// nothing.
proof fn lemma_merge_missing_noop(attrs: Seq<Attribute>, new: Seq<Attribute>)
    requires
        forall|i: int| 0 <= i < new.len() ==> has_attr_local(attrs, new[i].name.local@),
    ensures
        merge_missing(attrs, new) == attrs,
    decreases new.len(),
{
    if new.len() > 0 {
        assert(has_attr_local(attrs, new[0].name.local@));
        assert forall|i: int| 0 <= i < new.drop_first().len() implies has_attr_local(
            attrs,
            new.drop_first()[i].name.local@,
        ) by {
            assert(new.drop_first()[i] == new[i + 1]);
        }
        lemma_merge_missing_noop(attrs, new.drop_first());
    }
}

/// Law: `add_attrs_if_missing` is idempotent. A first merge leaves every
/// supplied local name present, so repeating the merge with the identical
/// attribute set changes nothing.
pub proof fn lemma_add_attrs_if_missing_idempotent(attrs: Seq<Attribute>, new: Seq<Attribute>)
    ensures
        merge_missing(merge_missing(attrs, new), new) == merge_missing(attrs, new),
{
    let m = merge_missing(attrs, new);
    assert forall|i: int| 0 <= i < new.len() implies has_attr_local(m, new[i].name.local@) by {
        lemma_merge_missing_covers(attrs, new, i);
    }
    lemma_merge_missing_noop(m, new);
}

/// Law: a template element's content handle is always distinct from the
/// element's own handle.
pub proof fn lemma_template_contents_distinct(s: Sink, h: Handle)
    requires
        s.wf(),
        (h.0 as int) < s.dom.spec_len(),
        s.template_contents@[h.0 as int] is Some,
    ensures
        s.template_contents@[h.0 as int] != Some(h.0),
{
}

/// Law: creating one element records exactly the supplied integration-point
/// flag for the new handle and leaves the flag of every previously created
/// handle unchanged (a template's content fragment is never flagged).
pub proof fn lemma_integration_point_reflects_creation(before: Seq<bool>, flags: ElementFlags)
    ensures
        integration_after_create(before, flags)[before.len() as int]
            == flags.mathml_annotation_xml_integration_point,
        forall|i: int|
            0 <= i < before.len() ==> integration_after_create(before, flags)[i] == before[i],
        integration_after_create(before, flags).len() >= before.len() + 1,
{
}

} // verus!
