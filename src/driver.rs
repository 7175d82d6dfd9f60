use vstd::prelude::*;

use crate::queue::{load_queue, queue_of, views, without_first};
use crate::text::{chars_of, contains_exec, has_sub};

verus! {

pub open spec fn youtube_word() -> Seq<char> {
    seq!['y', 'o', 'u', 't', 'u', 'b', 'e']
}

pub open spec fn youtu_be_word() -> Seq<char> {
    seq!['y', 'o', 'u', 't', 'u', '.', 'b', 'e']
}

/// A URL that the video downloader is run on.
pub open spec fn is_video_url(url: Seq<char>) -> bool {
    has_sub(url, youtube_word()) || has_sub(url, youtu_be_word())
}

/// Whether the downloader handles `url`: it names `youtube` or `youtu.be`.
pub fn is_video_link(url: &str) -> (r: bool)
    ensures
        r == is_video_url(url@),
{
    let v = chars_of(url);
    let a = ['y', 'o', 'u', 't', 'u', 'b', 'e'];
    let b = ['y', 'o', 'u', 't', 'u', '.', 'b', 'e'];
    assert(a@ =~= youtube_word());
    assert(b@ =~= youtu_be_word());
    contains_exec(v.as_slice(), &a) || contains_exec(v.as_slice(), &b)
}

/// What the download loop does next.
#[derive(Debug, PartialEq, Eq)]
pub enum Step {
    /// Run the downloader on this URL, then remove it from the queue.
    Fetch(String),
    /// Remove this URL from the queue without downloading it.
    Discard(String),
    /// The queue is empty: stop.
    Finish,
}

/// The next step of the download loop for the queue that `queue_text` holds: the
/// head of the queue is fetched when the downloader handles it and discarded
/// otherwise; an empty queue finishes the loop. Either way the caller removes the
/// head afterwards, whether or not the download succeeded.
pub fn download_all(queue_text: &str) -> (r: Step)
    ensures
        queue_of(queue_text@).len() == 0 <==> r is Finish,
        r matches Step::Fetch(u) ==> u@ == queue_of(queue_text@)[0] && is_video_url(u@),
        r matches Step::Discard(u) ==> u@ == queue_of(queue_text@)[0] && !is_video_url(u@),
{
    let mut lines = load_queue(queue_text);
    if lines.len() == 0 {
        return Step::Finish;
    }
    let ghost q = views(lines@);
    let head = lines.swap_remove(0);
    assert(head@ == q[0]);
    if is_video_link(head.as_str()) {
        Step::Fetch(head)
    } else {
        Step::Discard(head)
    }
}

/// Each step of the download loop removes the head of the queue, so the queue
/// shrinks by one entry per step and the loop ends.
pub proof fn law_step_removes_head(text: Seq<char>)
    requires
        queue_of(text).len() > 0,
    ensures
        without_first(queue_of(text), queue_of(text)[0]) == queue_of(text).drop_first(),
{
}

} // verus!
