//! What the annotations of a header say about it.

use vstd::prelude::*;
use vstd::std_specs::convert::FromSpecImpl;

verus! {

/// One annotation of a header.
pub enum Annotation {
    /// Hide this header from the user, it is only to be used internally
    /// through includes.
    Hide,
    /// Put this header into a category with other, similar headers.
    Category(String),
}

/// Meta information contained in a header's annotations.
pub struct Annotations {
    /// Hide this header from the user, it is only to be used internally
    /// through includes.
    pub hide: bool,
    /// Put this header into a category with other, similar headers.
    pub category: Option<String>,
}

/// One of the annotations is `Hide`.
pub open spec fn hides(list: Seq<Annotation>) -> bool {
    exists|i: int| 0 <= i < list.len() && #[trigger] list[i] is Hide
}

/// The category that the last `Category` annotation names, if there is one.
pub open spec fn last_category(list: Seq<Annotation>) -> Option<String>
    decreases list.len(),
{
    if list.len() == 0 {
        None
    } else {
        match list.last() {
            Annotation::Category(category) => Some(category),
            Annotation::Hide => last_category(list.drop_last()),
        }
    }
}

impl Default for Annotations {
    /// A header without annotations is shown and belongs to no category.
    fn default() -> (annotations: Annotations)
        ensures
            !annotations.hide,
            annotations.category is None,
    {
        Annotations { hide: false, category: None }
    }
}

impl FromSpecImpl<Vec<Annotation>> for Annotations {
    open spec fn obeys_from_spec() -> bool {
        true
    }

    open spec fn from_spec(annotation_vec: Vec<Annotation>) -> Annotations {
        Annotations { hide: hides(annotation_vec@), category: last_category(annotation_vec@) }
    }
}

impl From<Vec<Annotation>> for Annotations {
    /// Gathers a header's annotations: it is hidden if any of them says so, and
    /// its category is the one named last.
    fn from(annotation_vec: Vec<Annotation>) -> (annotations: Annotations) {
        let mut annotations = Annotations::default();
        let mut i: usize = 0;
        while i < annotation_vec.len()
            invariant
                i <= annotation_vec@.len(),
                annotations.hide == hides(annotation_vec@.take(i as int)),
                annotations.category == last_category(annotation_vec@.take(i as int)),
            decreases annotation_vec@.len() - i,
        {
            let ghost before = annotation_vec@.take(i as int);
            let ghost now = annotation_vec@.take(i + 1);
            proof {
                assert(now.drop_last() =~= before);
                assert(now.last() == annotation_vec@[i as int]);
                if hides(before) {
                    let at = choose|at: int| 0 <= at < before.len() && #[trigger] before[at] is Hide;
                    assert(now[at] is Hide);
                }
                if hides(now) && !(annotation_vec@[i as int] is Hide) {
                    let at = choose|at: int| 0 <= at < now.len() && #[trigger] now[at] is Hide;
                    assert(before[at] is Hide);
                }
            }
            match &annotation_vec[i] {
                Annotation::Hide => {
                    annotations.hide = true;
                    assert(now[i as int] is Hide);
                },
                Annotation::Category(category) => {
                    annotations.category = Some(category.clone());
                },
            }
            i += 1;
        }
        assert(annotation_vec@.take(i as int) =~= annotation_vec@);
        annotations
    }
}

} // verus!
