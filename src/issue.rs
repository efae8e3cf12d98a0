use vstd::prelude::*;
use crate::tag::Tag;
use crate::todo::Todo;

verus! {

/// An issue of the tracker, by number.
pub struct Issue {
    pub issue_number: u64,
}

/// Relies on `rand::random`: some `u64`; nothing is known of which.
#[verifier::external_body]
fn random_u64() -> u64 {
    rand::random::<u64>()
}

/// The tag that a simulated report gives a TODO for a drawn number: the
/// draw reduced below 10000.
pub fn tag_from_draw(todo: Todo, draw: u64) -> (r: Tag)
    ensures
        r.todo == todo,
        r.issue_number == draw % 10_000,
{
    Tag { issue_number: draw % 10_000, todo }
}

/// The tag that a simulated report gives a TODO: a random issue number
/// below 10000.
pub fn simulated_tag(todo: Todo) -> (r: Tag)
    ensures
        r.todo == todo,
        r.issue_number < 10_000,
{
    let draw = random_u64();
    tag_from_draw(todo, draw)
}

} // verus!
