//! The layout of references: under the namespace of a project, either in
//! the project's own section or in the section kept for a remote peer, one
//! of a fixed set of categories.

use vstd::prelude::*;
use crate::identity::{Namespace, PeerId, Urn};
use crate::names::{
    heads, id, ids, lemma_names_valid, namespaces, rad, refs, remotes, seg_heads, seg_id, seg_ids,
    seg_namespaces, seg_rad, seg_refs, seg_remotes, seg_self, seg_signed_refs, self_, signed_refs,
};
use crate::path::{
    all_segments_ok, ends_in_wildcard, is_wildcard, join_text, lemma_split_join, segment_ok,
    segs_of, separator_free, split, split_text, valid_pattern, valid_segment, valid_segments,
    wildcard, PathError, RefLike, RefPath, RefspecPattern,
};
use crate::refspec::{Refspec, RefspecView};
use crate::text::{chars_of, copy_text, same_text};

verus! {

/// What a reference is for, as a mathematical value.
pub enum CategoryView {
    /// The identity document.
    RadId,
    /// The profile of the peer itself.
    RadSelf,
    /// Every identity the project delegates to.
    RadIdsGlob,
    /// The signed state of a peer's references.
    SignedRefs,
    /// The branch of the given name.
    Head(Seq<Seq<char>>),
}

/// A reference as a mathematical value: the namespace, the peer whose
/// section it lies in, if any, and the category.
pub struct ReferenceView {
    pub namespace: Seq<char>,
    pub remote: Option<Seq<char>>,
    pub category: CategoryView,
}

/// The segments of a category, below the namespace and the peer's section.
pub open spec fn category_segments(category: CategoryView) -> Seq<Seq<char>> {
    match category {
        CategoryView::RadId => seq![seg_refs(), seg_rad(), seg_id()],
        CategoryView::RadSelf => seq![seg_refs(), seg_rad(), seg_self()],
        CategoryView::RadIdsGlob => seq![seg_refs(), seg_rad(), seg_ids(), wildcard()],
        CategoryView::SignedRefs => seq![seg_refs(), seg_rad(), seg_signed_refs()],
        CategoryView::Head(name) => seq![seg_refs(), seg_heads()] + name,
    }
}

/// The segments that select a peer's section: none for the project's own.
pub open spec fn scope_segments(remote: Option<Seq<char>>) -> Seq<Seq<char>> {
    match remote {
        None => Seq::<Seq<char>>::empty(),
        Some(peer) => seq![seg_refs(), seg_remotes(), peer],
    }
}

/// The segments of a reference: `refs/namespaces/<namespace>`, then
/// `refs/remotes/<peer>` where it lies in a peer's section, then the
/// category.
pub open spec fn reference_segments(r: ReferenceView) -> Seq<Seq<char>> {
    seq![seg_refs(), seg_namespaces(), r.namespace] + scope_segments(r.remote)
        + category_segments(r.category)
}

/// The text of a reference.
pub open spec fn reference_text(r: ReferenceView) -> Seq<char> {
    join_text(reference_segments(r))
}

/// A reference whose namespace and peer are valid segments and whose
/// branch name, if it has one, is a valid path.
pub open spec fn valid_reference(r: ReferenceView) -> bool {
    &&& valid_segment(r.namespace)
    &&& r.remote matches Some(peer) ==> valid_segment(peer)
    &&& r.category matches CategoryView::Head(name) ==> valid_segments(name)
}

/// The category that the segments `rest` name, if any.
pub open spec fn parse_category(rest: Seq<Seq<char>>) -> Option<CategoryView> {
    if rest == seq![seg_refs(), seg_rad(), seg_id()] {
        Some(CategoryView::RadId)
    } else if rest == seq![seg_refs(), seg_rad(), seg_self()] {
        Some(CategoryView::RadSelf)
    } else if rest == seq![seg_refs(), seg_rad(), seg_ids(), wildcard()] {
        Some(CategoryView::RadIdsGlob)
    } else if rest == seq![seg_refs(), seg_rad(), seg_signed_refs()] {
        Some(CategoryView::SignedRefs)
    } else if rest.len() >= 3 && rest[0] == seg_refs() && rest[1] == seg_heads() && valid_segments(
        rest.skip(2),
    ) {
        Some(CategoryView::Head(rest.skip(2)))
    } else {
        None
    }
}

/// Whether the segments `rest` begin with a peer's section.
pub open spec fn has_scope(rest: Seq<Seq<char>>) -> bool {
    rest.len() >= 3 && rest[0] == seg_refs() && rest[1] == seg_remotes() && valid_segment(rest[2])
}

/// The reference that the segments `segs` spell, if any.
pub open spec fn parse_reference(segs: Seq<Seq<char>>) -> Option<ReferenceView> {
    if segs.len() >= 3 && segs[0] == seg_refs() && segs[1] == seg_namespaces() && valid_segment(
        segs[2],
    ) {
        let rest = segs.skip(3);
        if has_scope(rest) {
            match parse_category(rest.skip(3)) {
                Some(category) => Some(
                    ReferenceView { namespace: segs[2], remote: Some(rest[2]), category },
                ),
                None => None,
            }
        } else {
            match parse_category(rest) {
                Some(category) => Some(
                    ReferenceView { namespace: segs[2], remote: None, category },
                ),
                None => None,
            }
        }
    } else {
        None
    }
}

/// The fixed segments that tell the categories and the peer's section
/// apart are pairwise different.
pub proof fn lemma_names_distinct()
    ensures
        seg_rad() != seg_heads(),
        seg_rad() != seg_remotes(),
        seg_heads() != seg_remotes(),
        seg_id() != seg_self(),
        seg_id() != seg_ids(),
        seg_id() != seg_signed_refs(),
        seg_self() != seg_ids(),
        seg_self() != seg_signed_refs(),
        seg_ids() != seg_signed_refs(),
{
    assert(seg_rad().len() == 3);
    assert(seg_heads().len() == 5);
    assert(seg_remotes().len() == 7);
    assert(seg_id().len() == 2);
    assert(seg_self().len() == 4);
    assert(seg_ids().len() == 3);
    assert(seg_signed_refs().len() == 11);
}

/// Reading the segments of a category gives the category back.
pub proof fn lemma_category_round_trip(category: CategoryView)
    requires
        category matches CategoryView::Head(name) ==> valid_segments(name),
    ensures
        parse_category(category_segments(category)) == Some(category),
{
    lemma_names_distinct();
    let rest = category_segments(category);
    match category {
        CategoryView::RadId => {},
        CategoryView::RadSelf => {
            assert(rest[2] == seg_self());
        },
        CategoryView::RadIdsGlob => {
            assert(rest.len() == 4);
        },
        CategoryView::SignedRefs => {
            assert(rest[2] == seg_signed_refs());
        },
        CategoryView::Head(name) => {
            assert(rest[1] == seg_heads());
            assert(rest.skip(2) =~= name);
            assert(rest.len() >= 3);
        },
    }
}

/// The segments of a category never begin with a peer's section.
pub proof fn lemma_category_has_no_scope(category: CategoryView)
    ensures
        !has_scope(category_segments(category)),
{
    lemma_names_distinct();
    let rest = category_segments(category);
    match category {
        CategoryView::RadId => {
            assert(rest[1] == seg_rad());
        },
        CategoryView::RadSelf => {
            assert(rest[1] == seg_rad());
        },
        CategoryView::RadIdsGlob => {
            assert(rest[1] == seg_rad());
        },
        CategoryView::SignedRefs => {
            assert(rest[1] == seg_rad());
        },
        CategoryView::Head(name) => {
            assert(rest[1] == seg_heads());
        },
    }
}

/// Reading the segments of a valid reference gives the reference back.
pub proof fn lemma_reference_segments_round_trip(r: ReferenceView)
    requires
        valid_reference(r),
    ensures
        parse_reference(reference_segments(r)) == Some(r),
{
    let segs = reference_segments(r);
    let rest = segs.skip(3);
    assert(segs[0] == seg_refs());
    assert(segs[1] == seg_namespaces());
    assert(segs[2] == r.namespace);
    lemma_category_round_trip(r.category);
    lemma_category_has_no_scope(r.category);
    match r.remote {
        None => {
            assert(rest =~= category_segments(r.category));
        },
        Some(peer) => {
            assert(rest =~= seq![seg_refs(), seg_remotes(), peer] + category_segments(r.category));
            assert(rest[0] == seg_refs());
            assert(rest[1] == seg_remotes());
            assert(rest[2] == peer);
            assert(rest.skip(3) =~= category_segments(r.category));
        },
    }
}

/// The segments of a valid reference make a valid path, or a valid pattern
/// where the category is the one that ends in the wildcard.
pub proof fn lemma_reference_segments_valid(r: ReferenceView)
    requires
        valid_reference(r),
    ensures
        r.category is RadIdsGlob ==> valid_pattern(reference_segments(r)),
        !(r.category is RadIdsGlob) ==> valid_segments(reference_segments(r)),
        separator_free(reference_segments(r)),
{
    lemma_names_valid();
    let head = seq![seg_refs(), seg_namespaces(), r.namespace];
    let scope = scope_segments(r.remote);
    let tail = category_segments(r.category);
    let segs = reference_segments(r);
    assert forall|i: int| 0 <= i < head.len() + scope.len() implies valid_segment(
        #[trigger] segs[i],
    ) by {
        if i >= 3 {
            assert(segs[i] == scope[i - 3]);
        }
    }
    assert forall|i: int|
        head.len() + scope.len() <= i < segs.len() && !(r.category is RadIdsGlob && i == segs.len()
            - 1) implies valid_segment(#[trigger] segs[i]) by {
        let k = i - head.len() - scope.len();
        assert(segs[i] == tail[k]);
        match r.category {
            CategoryView::Head(name) => {
                if k >= 2 {
                    assert(tail[k] == name[k - 2]);
                }
            },
            _ => {},
        }
    }
    if r.category is RadIdsGlob {
        assert(segs.last() == tail[3]);
    }
    assert forall|i: int, j: int|
        0 <= i < segs.len() && 0 <= j < segs[i].len() implies #[trigger] segs[i][j] != '/' by {
        if r.category is RadIdsGlob && i == segs.len() - 1 {
            assert(segs[i] == wildcard());
        } else {
            assert(valid_segment(segs[i]));
        }
    }
}

/// What the segments of a category name is a category with those
/// segments, whose branch name, if it has one, is a valid path.
pub proof fn lemma_category_parse_sound(rest: Seq<Seq<char>>)
    requires
        parse_category(rest) is Some,
    ensures
        category_segments(parse_category(rest)->0) == rest,
        parse_category(rest)->0 matches CategoryView::Head(name) ==> valid_segments(name),
{
    match parse_category(rest)->0 {
        CategoryView::Head(name) => {
            assert(seq![seg_refs(), seg_heads()] + rest.skip(2) =~= rest);
        },
        _ => {},
    }
}

/// What segments spell is a valid reference with those segments.
pub proof fn lemma_reference_parse_sound(segs: Seq<Seq<char>>)
    requires
        parse_reference(segs) is Some,
    ensures
        valid_reference(parse_reference(segs)->0),
        reference_segments(parse_reference(segs)->0) == segs,
{
    let r = parse_reference(segs)->0;
    let rest = segs.skip(3);
    let head = seq![seg_refs(), seg_namespaces(), segs[2]];
    assert(head + rest =~= segs);
    if has_scope(rest) {
        lemma_category_parse_sound(rest.skip(3));
        assert(seq![seg_refs(), seg_remotes(), rest[2]] + rest.skip(3) =~= rest);
        assert(reference_segments(r) =~= head + (seq![seg_refs(), seg_remotes(), rest[2]]
            + rest.skip(3)));
    } else {
        lemma_category_parse_sound(rest);
        assert(reference_segments(r) =~= head + rest);
    }
}

/// Reading is the inverse of rendering, both ways round. Rendering a valid
/// reference to its text and reading the text again gives the reference
/// back; and a text that reads as a reference is the text of that
/// reference, which is valid.
pub proof fn law_reference_parse_render(text: Seq<char>)
    requires
        parse_reference(split(text)) is Some,
    ensures
        valid_reference(parse_reference(split(text))->0),
        reference_text(parse_reference(split(text))->0) == text,
{
    lemma_reference_parse_sound(split(text));
    crate::path::lemma_join_split(text);
}

/// Rendering a valid reference to its text and reading the text again
/// gives the reference back.
pub proof fn law_reference_round_trip(r: ReferenceView)
    requires
        valid_reference(r),
    ensures
        parse_reference(split(reference_text(r))) == Some(r),
{
    lemma_reference_segments_valid(r);
    lemma_split_join(reference_segments(r));
    lemma_reference_segments_round_trip(r);
}

/// What a reference is for.
#[derive(Debug)]
pub enum Category {
    /// The identity document.
    RadId,
    /// The profile of the peer itself.
    RadSelf,
    /// Every identity the project delegates to.
    RadIdsGlob,
    /// The signed state of a peer's references.
    SignedRefs,
    /// The branch of the given name.
    Head(RefLike),
}

impl View for Category {
    type V = CategoryView;

    open spec fn view(&self) -> CategoryView {
        match self {
            Category::RadId => CategoryView::RadId,
            Category::RadSelf => CategoryView::RadSelf,
            Category::RadIdsGlob => CategoryView::RadIdsGlob,
            Category::SignedRefs => CategoryView::SignedRefs,
            Category::Head(name) => CategoryView::Head(name@),
        }
    }
}

impl Clone for Category {
    fn clone(&self) -> (out: Self)
        ensures
            out@ == self@,
    {
        match self {
            Category::RadId => Category::RadId,
            Category::RadSelf => Category::RadSelf,
            Category::RadIdsGlob => Category::RadIdsGlob,
            Category::SignedRefs => Category::SignedRefs,
            Category::Head(name) => Category::Head(name.clone()),
        }
    }
}

impl PartialEq for Category {
    fn eq(&self, other: &Self) -> (same: bool) {
        match (self, other) {
            (Category::RadId, Category::RadId) => true,
            (Category::RadSelf, Category::RadSelf) => true,
            (Category::RadIdsGlob, Category::RadIdsGlob) => true,
            (Category::SignedRefs, Category::SignedRefs) => true,
            (Category::Head(a), Category::Head(b)) => a == b,
            _ => false,
        }
    }
}

impl Eq for Category {

}

impl vstd::std_specs::cmp::PartialEqSpecImpl for Category {
    open spec fn obeys_eq_spec() -> bool {
        true
    }

    open spec fn eq_spec(&self, other: &Self) -> bool {
        self@ == other@
    }
}

/// A reference: a namespace, the peer whose section it lies in, if any,
/// and a category.
#[derive(Debug)]
pub struct Reference {
    namespace: Namespace,
    remote: Option<PeerId>,
    category: Category,
}

/// The name of a peer that may be absent, as a mathematical value.
pub open spec fn remote_view(remote: Option<PeerId>) -> Option<Seq<char>> {
    match remote {
        None => None,
        Some(peer) => Some(peer@),
    }
}

impl View for Reference {
    type V = ReferenceView;

    closed spec fn view(&self) -> ReferenceView {
        ReferenceView {
            namespace: self.namespace@,
            remote: remote_view(self.remote),
            category: self.category@,
        }
    }
}

/// A copy of a peer that may be absent.
fn copy_remote(remote: &Option<PeerId>) -> (out: Option<PeerId>)
    ensures
        remote_view(out) == remote_view(*remote),
{
    match remote {
        None => None,
        Some(peer) => Some(peer.clone()),
    }
}

impl Clone for Reference {
    fn clone(&self) -> (out: Self)
        ensures
            out@ == self@,
    {
        Reference {
            namespace: self.namespace.clone(),
            remote: copy_remote(&self.remote),
            category: self.category.clone(),
        }
    }
}

impl PartialEq for Reference {
    fn eq(&self, other: &Self) -> (same: bool) {
        let remotes = match (&self.remote, &other.remote) {
            (None, None) => true,
            (Some(a), Some(b)) => a == b,
            _ => false,
        };
        self.namespace == other.namespace && remotes && self.category == other.category
    }
}

impl Eq for Reference {

}

impl vstd::std_specs::cmp::PartialEqSpecImpl for Reference {
    open spec fn obeys_eq_spec() -> bool {
        true
    }

    open spec fn eq_spec(&self, other: &Self) -> bool {
        self@ == other@
    }
}

/// Whether `seg` spells the same as the one segment of `name`.
fn is_name(seg: &Vec<char>, name: &RefLike) -> (same: bool)
    requires
        name@.len() == 1,
    ensures
        same == (seg@ == name@[0]),
{
    same_text(seg, name.segment(0))
}

impl Reference {
    /// Every reference is made of valid parts.
    pub open spec fn wf(&self) -> bool {
        valid_reference(self@)
    }

    /// The identity document of the project, in its own section.
    pub fn rad_id(namespace: Namespace) -> (out: Reference)
        ensures
            out@ == (ReferenceView {
                namespace: namespace@,
                remote: None,
                category: CategoryView::RadId,
            }),
    {
        Reference { namespace, remote: None, category: Category::RadId }
    }

    /// The profile of a peer: its own where `remote` is `None`.
    pub fn rad_self(namespace: Namespace, remote: Option<PeerId>) -> (out: Reference)
        ensures
            out@ == (ReferenceView {
                namespace: namespace@,
                remote: remote_view(remote),
                category: CategoryView::RadSelf,
            }),
    {
        Reference { namespace, remote, category: Category::RadSelf }
    }

    /// Every identity the project delegates to, in its own section.
    pub fn rad_ids_glob(namespace: Namespace) -> (out: Reference)
        ensures
            out@ == (ReferenceView {
                namespace: namespace@,
                remote: None,
                category: CategoryView::RadIdsGlob,
            }),
    {
        Reference { namespace, remote: None, category: Category::RadIdsGlob }
    }

    /// The signed state of the references of `remote`, in that peer's
    /// section.
    pub fn rad_signed_refs(namespace: Namespace, remote: PeerId) -> (out: Reference)
        ensures
            out@ == (ReferenceView {
                namespace: namespace@,
                remote: Some(remote@),
                category: CategoryView::SignedRefs,
            }),
    {
        Reference { namespace, remote: Some(remote), category: Category::SignedRefs }
    }

    /// The branch `name`: the project's own where `remote` is `None`.
    pub fn head(namespace: Namespace, remote: Option<PeerId>, name: RefLike) -> (out: Reference)
        ensures
            out@ == (ReferenceView {
                namespace: namespace@,
                remote: remote_view(remote),
                category: CategoryView::Head(name@),
            }),
    {
        Reference { namespace, remote, category: Category::Head(name) }
    }

    /// The same reference in the section of `remote`, or in the project's
    /// own section where `remote` is `None`.
    pub fn set_remote(&self, remote: Option<PeerId>) -> (out: Reference)
        ensures
            out@ == (ReferenceView { remote: remote_view(remote), ..self@ }),
    {
        Reference { namespace: self.namespace.clone(), remote, category: self.category.clone() }
    }

    /// The path of the reference, or its pattern where the category ends
    /// in the wildcard.
    pub fn render(&self) -> (out: RefPath)
        ensures
            out@ == reference_segments(self@),
            out.text() == reference_text(self@),
            out.wf(),
            out is Pattern == (self@.category is RadIdsGlob),
            ends_in_wildcard(out@) == (self@.category is RadIdsGlob),
            self.wf(),
    {
        let out = self.rendered();
        proof {
            if out is Path {
                assert(valid_segment(out@[out@.len() - 1]));
            }
        }
        out
    }

    /// The directive that copies the remote reference `remote` to this
    /// one. Fails exactly when one of the two is a pattern and the other is
    /// not.
    pub fn refspec(&self, remote: &Reference, force: bool) -> (out: Result<Refspec, PathError>)
        ensures
            out is Ok <==> (self@.category is RadIdsGlob) == (remote@.category is RadIdsGlob),
            out matches Ok(spec) ==> spec@ == (RefspecView {
                local: reference_segments(self@),
                remote: reference_segments(remote@),
                force,
            }) && spec.wf(),
            out matches Err(e) ==> e == PathError::MixedPattern,
    {
        Refspec::new(self.render(), remote.render(), force)
    }

    /// The path or pattern of the reference, built segment by segment.
    fn rendered(&self) -> (out: RefPath)
        ensures
            out@ == reference_segments(self@),
            out.text() == reference_text(self@),
            out.wf(),
            out is Pattern == (self@.category is RadIdsGlob),
            self.wf(),
    {
        let root = refs().join(&namespaces()).join(self.namespace.as_path());
        assert(root@ =~= seq![seg_refs(), seg_namespaces(), self@.namespace]);
        let section = match &self.remote {
            None => root,
            Some(peer) => root.join(&refs()).join(&remotes()).join(peer.as_path()),
        };
        assert(section@ =~= seq![seg_refs(), seg_namespaces(), self@.namespace] + scope_segments(
            self@.remote,
        ));
        let base = section.join(&refs()).join(&rad());
        let ghost start = section@;
        assert(base@ =~= start + seq![seg_refs(), seg_rad()]);
        match &self.category {
            Category::RadId => {
                let path = base.join(&id());
                assert(path@ =~= start + seq![seg_refs(), seg_rad(), seg_id()]);
                RefPath::Path(path)
            },
            Category::RadSelf => {
                let path = base.join(&self_());
                assert(path@ =~= start + seq![seg_refs(), seg_rad(), seg_self()]);
                RefPath::Path(path)
            },
            Category::RadIdsGlob => {
                let pattern = base.join(&ids()).with_pattern_suffix(&RefspecPattern::any());
                assert(pattern@ =~= start + seq![seg_refs(), seg_rad(), seg_ids(), wildcard()]);
                RefPath::Pattern(pattern)
            },
            Category::SignedRefs => {
                let path = base.join(&signed_refs());
                assert(path@ =~= start + seq![seg_refs(), seg_rad(), seg_signed_refs()]);
                RefPath::Path(path)
            },
            Category::Head(name) => {
                let path = section.join(&refs()).join(&heads()).join(name);
                proof {
                    use_type_invariant(name);
                }
                assert(path@ =~= start + (seq![seg_refs(), seg_heads()] + name@));
                RefPath::Path(path)
            },
        }
    }

    /// The text of the reference.
    pub fn to_string(&self) -> (out: String)
        ensures
            out@ == reference_text(self@),
    {
        self.render().to_string()
    }

    /// Reads the category that the segments from position `at` on name.
    fn category_at(segs: &Vec<Vec<char>>, at: usize) -> (out: Option<Category>)
        requires
            at <= segs@.len(),
        ensures
            out is Some <==> parse_category(segs_of(segs@).skip(at as int)) is Some,
            out matches Some(category) ==> Some(category@) == parse_category(
                segs_of(segs@).skip(at as int),
            ),
    {
        let ghost rest = segs_of(segs@).skip(at as int);
        let n: usize = segs.len() - at;
        proof {
            lemma_names_distinct();
        }
        if n < 3 {
            return None;
        }
        assert(rest[0] == segs@[at as int]@);
        assert(rest[1] == segs@[at + 1]@);
        assert(rest[2] == segs@[at + 2]@);
        if !is_name(&segs[at], &refs()) {
            return None;
        }
        if is_name(&segs[at + 1], &heads()) {
            let mut name: Vec<Vec<char>> = Vec::new();
            let mut i: usize = at + 2;
            while i < segs.len()
                invariant
                    at + 2 <= i <= segs.len(),
                    segs_of(name@) == segs_of(segs@).subrange(at + 2, i as int),
                decreases segs.len() - i,
            {
                let ghost before = segs_of(name@);
                name.push(copy_text(&segs[i]));
                assert(segs_of(name@) == before.push(segs@[i as int]@));
                assert(segs_of(segs@).subrange(at + 2, i + 1) == segs_of(segs@).subrange(
                    at + 2,
                    i as int,
                ).push(segs@[i as int]@));
                i += 1;
            }
            assert(segs_of(name@) =~= rest.skip(2));
            if all_segments_ok(&name) {
                return Some(Category::Head(RefLike::from_segments(name)));
            } else {
                return None;
            }
        }
        if !is_name(&segs[at + 1], &rad()) {
            return None;
        }
        if n == 3 {
            if is_name(&segs[at + 2], &id()) {
                assert(rest =~= seq![seg_refs(), seg_rad(), seg_id()]);
                Some(Category::RadId)
            } else if is_name(&segs[at + 2], &self_()) {
                assert(rest =~= seq![seg_refs(), seg_rad(), seg_self()]);
                Some(Category::RadSelf)
            } else if is_name(&segs[at + 2], &signed_refs()) {
                assert(rest =~= seq![seg_refs(), seg_rad(), seg_signed_refs()]);
                Some(Category::SignedRefs)
            } else {
                None
            }
        } else if n == 4 {
            assert(rest[3] == segs@[at + 3]@);
            if is_name(&segs[at + 2], &ids()) && is_wildcard(&segs[at + 3]) {
                assert(rest =~= seq![seg_refs(), seg_rad(), seg_ids(), wildcard()]);
                Some(Category::RadIdsGlob)
            } else {
                None
            }
        } else {
            None
        }
    }

    /// Reads a reference from its text. Succeeds exactly on the texts whose
    /// pieces spell a reference.
    pub fn parse(s: &str) -> (out: Option<Reference>)
        ensures
            out is Some <==> parse_reference(split(s@)) is Some,
            out matches Some(r) ==> Some(r@) == parse_reference(split(s@)) && r.wf()
                && reference_text(r@) == s@,
    {
        proof {
            if parse_reference(split(s@)) is Some {
                law_reference_parse_render(s@);
            }
        }
        let chars = chars_of(s);
        let segs = split_text(&chars);
        let ghost all = segs_of(segs@);
        if segs.len() < 3 {
            return None;
        }
        assert(all[0] == segs@[0]@);
        assert(all[1] == segs@[1]@);
        assert(all[2] == segs@[2]@);
        if !is_name(&segs[0], &refs()) || !is_name(&segs[1], &namespaces()) || !segment_ok(
            &segs[2],
        ) {
            return None;
        }
        let namespace = Namespace::from(&Urn::from_segment(copy_text(&segs[2])));
        let ghost rest = all.skip(3);
        let scoped = segs.len() >= 6 && is_name(&segs[3], &refs()) && is_name(&segs[4], &remotes())
            && segment_ok(&segs[5]);
        proof {
            if segs.len() >= 6 {
                assert(rest[0] == segs@[3]@);
                assert(rest[1] == segs@[4]@);
                assert(rest[2] == segs@[5]@);
            }
            assert(scoped == has_scope(rest));
        }
        if scoped {
            assert(rest.skip(3) =~= all.skip(6));
            match Self::category_at(&segs, 6) {
                Some(category) => {
                    let peer = PeerId::from_segment(copy_text(&segs[5]));
                    Some(Reference { namespace, remote: Some(peer), category })
                },
                None => None,
            }
        } else {
            match Self::category_at(&segs, 3) {
                Some(category) => Some(Reference { namespace, remote: None, category }),
                None => None,
            }
        }
    }
}

} // verus!
