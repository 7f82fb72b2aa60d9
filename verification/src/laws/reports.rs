//! What is reported of a package, whatever file it was found in.
use crate::model::{Ecosystem, ExtractedView, KeyView, PackageView};
use vstd::prelude::*;

verus! {

/// What a sighting says of a package, apart from where in the file it stands.
pub struct Gist {
    pub package: PackageView,
    pub path: Seq<char>,
    pub dep_groups: Seq<Seq<char>>,
    pub from_range: bool,
}

pub open spec fn gist(s: ExtractedView) -> Gist {
    Gist {
        package: s.package,
        path: s.evidence.path,
        dep_groups: s.dep_groups,
        from_range: s.from_range,
    }
}

pub open spec fn gists(found: Seq<ExtractedView>) -> Seq<Gist> {
    Seq::new(found.len(), |i: int| gist(found[i]))
}

pub proof fn lemma_gists_push(found: Seq<ExtractedView>, x: ExtractedView)
    ensures
        gists(found.push(x)) == gists(found).push(gist(x)),
{
    assert(gists(found.push(x)) =~= gists(found).push(gist(x)));
}

/// A package of an ecosystem at a version, as it is reported.
pub open spec fn reported(
    ecosystem: Ecosystem,
    name: Seq<char>,
    version: Seq<char>,
    path: Seq<char>,
    dep_groups: Seq<Seq<char>>,
    from_range: bool,
) -> Gist {
    Gist {
        package: PackageView { key: KeyView { ecosystem, name }, version },
        path,
        dep_groups,
        from_range,
    }
}

pub proof fn lemma_gists_add(a: Seq<ExtractedView>, b: Seq<ExtractedView>)
    ensures
        gists(a + b) == gists(a) + gists(b),
{
    assert(gists(a + b) =~= gists(a) + gists(b));
}

} // verus!
