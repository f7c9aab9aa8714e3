//! The deletion pipeline's decisions: one progress event per selected
//! item, in selection order, with a failure never stopping the batch.
//! Removing the file itself is platform work done by the caller, who
//! reports each attempt's outcome.

use vstd::prelude::*;

verus! {

/// What happened when one selected file was to be removed.
#[derive(Debug, Clone, PartialEq)]
pub enum RemovalOutcome {
    /// The file existed and was removed.
    Removed,
    /// No file exists at the path.
    NotFound,
    /// The platform refused the removal; its error text.
    Failed(String),
}

/// One progress event of the deletion stream: which result it concerns,
/// whether its file was removed, and the failure text otherwise.
#[derive(Debug, Clone, PartialEq)]
pub struct DeleteProgress {
    pub image_id: u32,
    pub is_success: bool,
    pub message: Option<String>,
}

/// The event owed for one item: success without a message, a fixed text
/// for a missing file, the platform's text for a refused removal.
pub open spec fn progress_matches(p: DeleteProgress, image_id: u32, outcome: RemovalOutcome) -> bool {
    &&& p.image_id == image_id
    &&& match outcome {
        RemovalOutcome::Removed => p.is_success && p.message is None,
        RemovalOutcome::NotFound => !p.is_success && (p.message matches Some(m) && m@
            == "File not found"@),
        RemovalOutcome::Failed(e) => !p.is_success && (p.message matches Some(m) && m@ == e@),
    }
}

/// Builds the progress event for one deletion attempt.
pub fn delete_progress(image_id: u32, outcome: RemovalOutcome) -> (p: DeleteProgress)
    ensures
        progress_matches(p, image_id, outcome),
{
    match outcome {
        RemovalOutcome::Removed => DeleteProgress { image_id, is_success: true, message: None },
        RemovalOutcome::NotFound => DeleteProgress {
            image_id,
            is_success: false,
            message: Some("File not found".to_owned()),
        },
        RemovalOutcome::Failed(e) => DeleteProgress {
            image_id,
            is_success: false,
            message: Some(e),
        },
    }
}

/// The events of a whole batch: exactly one per selected item, in
/// selection order; an item that failed leaves the rest untouched.
pub fn delete_batch(selected: &Vec<(u32, String)>, outcomes: Vec<RemovalOutcome>) -> (r: Vec<
    DeleteProgress,
>)
    requires
        outcomes@.len() == selected@.len(),
    ensures
        r@.len() == selected@.len(),
        forall|i: int|
            0 <= i < r@.len() ==> progress_matches(#[trigger] r@[i], selected@[i].0, outcomes@[i]),
{
    let ghost all = outcomes@;
    let mut rest = outcomes;
    let mut out: Vec<DeleteProgress> = Vec::new();
    let mut i: usize = 0;
    while i < selected.len()
        invariant
            i <= selected@.len(),
            all.len() == selected@.len(),
            rest@ == all.skip(i as int),
            out@.len() == i,
            forall|k: int|
                0 <= k < i ==> progress_matches(#[trigger] out@[k], selected@[k].0, all[k]),
        decreases selected@.len() - i,
    {
        let oc = rest.remove(0);
        proof {
            assert(oc == all[i as int]);
            assert(rest@ =~= all.skip(i as int + 1));
        }
        out.push(delete_progress(selected[i].0, oc));
        i = i + 1;
    }
    out
}

} // verus!
