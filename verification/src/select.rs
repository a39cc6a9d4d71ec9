//! What the choice made in a folder picker comes to.

use vstd::prelude::*;

verus! {

/// What a folder picker reports when it closes without a failure.
#[derive(Debug, PartialEq, Eq)]
pub enum Picked {
    /// One path was chosen.
    Okay(String),
    /// Several paths were chosen.
    OkayMultiple(Vec<String>),
    /// The picker was dismissed.
    Cancel,
}

/// The mathematical value of a `Picked`.
pub enum PickedView {
    Okay(Seq<char>),
    OkayMultiple(Seq<Seq<char>>),
    Cancel,
}

/// The values of a sequence of strings, in order.
pub open spec fn texts(strings: Seq<String>) -> Seq<Seq<char>> {
    Seq::new(strings.len(), |i: int| strings[i]@)
}

impl View for Picked {
    type V = PickedView;

    open spec fn view(&self) -> PickedView {
        match self {
            Picked::Okay(path) => PickedView::Okay(path@),
            Picked::OkayMultiple(paths) => PickedView::OkayMultiple(texts(paths@)),
            Picked::Cancel => PickedView::Cancel,
        }
    }
}

/// The paths in order, each followed by a semicolon.
pub open spec fn joined(paths: Seq<Seq<char>>) -> Seq<char>
    decreases paths.len(),
{
    if paths.len() == 0 {
        Seq::empty()
    } else {
        joined(paths.drop_last()) + paths.last() + seq![';']
    }
}

/// What a choice comes to: the one path; several paths joined, each with
/// a semicolon behind it; the failure `Canceled` where the picker was
/// dismissed; the picker's own failure as it is.
pub open spec fn selection(picked: Result<PickedView, Seq<char>>) -> Result<Seq<char>, Seq<char>> {
    match picked {
        Ok(PickedView::Okay(path)) => Ok(path),
        Ok(PickedView::OkayMultiple(paths)) => Ok(joined(paths)),
        Ok(PickedView::Cancel) => Err("Canceled"@),
        Err(message) => Err(message),
    }
}

/// The mathematical value of what a picker hands over.
pub open spec fn picked_view(picked: Result<Picked, String>) -> Result<PickedView, Seq<char>> {
    match picked {
        Ok(choice) => Ok(choice@),
        Err(message) => Err(message@),
    }
}

/// The mathematical value of a selection.
pub open spec fn selection_view(result: Result<String, String>) -> Result<Seq<char>, Seq<char>> {
    match result {
        Ok(path) => Ok(path@),
        Err(message) => Err(message@),
    }
}

/// Turns what a folder picker reported into the path to work on.
pub fn select_folder(picked: Result<Picked, String>) -> (result: Result<String, String>)
    ensures
        selection_view(result) == selection(picked_view(picked)),
{
    match picked {
        Ok(Picked::Okay(path)) => Ok(path),
        Ok(Picked::OkayMultiple(paths)) => {
            let mut path = String::new();
            let mut i: usize = 0;
            assert(texts(paths@).take(0) =~= Seq::<Seq<char>>::empty());
            while i < paths.len()
                invariant
                    i <= paths.len(),
                    path@ == joined(texts(paths@).take(i as int)),
                decreases paths.len() - i,
            {
                proof {
                    reveal_strlit(";");
                    let done = texts(paths@).take(i + 1);
                    assert(done.drop_last() =~= texts(paths@).take(i as int));
                    assert(done.last() == paths@[i as int]@);
                    assert(";"@ =~= seq![';']);
                }
                path.append(paths[i].as_str());
                path.append(";");
                i = i + 1;
            }
            assert(texts(paths@).take(i as int) =~= texts(paths@));
            Ok(path)
        },
        Ok(Picked::Cancel) => Err("Canceled".to_owned()),
        Err(message) => Err(message),
    }
}

} // verus!
