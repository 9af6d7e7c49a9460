//! What holds of a reader through any sequence of calls.

use super::open::{descriptor_stage, header_stage, opened};
use super::state::State;
use crate::error::Error;
use crate::header::{header_of, SparseHeader};
use crate::text::same_ignoring_case;
use vstd::prelude::*;

verus! {

/// A call on an open reader that succeeded. A write is of at least one
/// byte: an empty one does nothing.
pub enum Call {
    Read,
    Write,
    Flush,
}

impl State {
    /// Whether `n` is this state of a writable reader after `call`, as far
    /// as the marks go.
    pub open spec fn comes_to(&self, call: Call, n: &State) -> bool {
        match call {
            Call::Read => *n == *self,
            Call::Write => {
                &&& self.text_marked(n)
                &&& n.unclean_marked
                &&& self.contents.len() <= n.contents.len()
            },
            Call::Flush => *n == self.flushed(),
        }
    }
}

/// Whether a writable reader went through `states` by `calls`.
pub open spec fn runs(states: Seq<State>, calls: Seq<Call>) -> bool {
    &&& states.len() == calls.len() + 1
    &&& forall|i: int|
        0 <= i < calls.len() ==> states[i].comes_to(#[trigger] calls[i], &states[i + 1])
}

/// Whether a write came after the last flush.
pub open spec fn unflushed(calls: Seq<Call>) -> bool
    decreases calls.len(),
{
    if calls.len() == 0 {
        false
    } else {
        match calls.last() {
            Call::Read => unflushed(calls.drop_last()),
            Call::Write => true,
            Call::Flush => false,
        }
    }
}

/// On an image whose `uncleanShutdown` byte is down when it is opened, the
/// byte is up exactly when a write came after the last flush, whatever the
/// calls were. Opening and reading leave it down.
pub proof fn law_mark_through_any_calls(states: Seq<State>, calls: Seq<Call>)
    requires
        runs(states, calls),
        states[0].mark_agrees(),
        !states[0].unclean_marked,
    ensures
        states.last().mark_agrees(),
        states.last().unclean_marked == unflushed(calls),
        states.last().contents[72] == (if unflushed(calls) {
            1u8
        } else {
            0u8
        }),
    decreases calls.len(),
{
    if calls.len() > 0 {
        let k = calls.len() - 1;
        let before = states.drop_last();
        let earlier = calls.drop_last();
        assert(runs(before, earlier)) by {
            assert forall|i: int| 0 <= i < earlier.len() implies before[i].comes_to(
                #[trigger] earlier[i],
                &before[i + 1],
            ) by {
                assert(states[i].comes_to(calls[i], &states[i + 1]));
            }
        }
        law_mark_through_any_calls(before, earlier);
        assert(states[k].comes_to(calls[k], &states[k + 1]));
        assert(before.last() == states[k] && states.last() == states[k + 1]);
    }
}

/// Whether every state is of the image that the first one is of.
pub open spec fn one_image(states: Seq<State>) -> bool {
    forall|i: int| 0 <= i < states.len() - 1 ==> (#[trigger] states[i]).same_image(&states[i + 1])
}

proof fn lemma_one_image(states: Seq<State>)
    requires
        states.len() > 0,
        one_image(states),
    ensures
        states[0].same_image(&states.last()),
    decreases states.len(),
{
    if states.len() > 1 {
        let before = states.drop_last();
        assert(one_image(before)) by {
            assert forall|i: int| 0 <= i < before.len() - 1 implies (
            #[trigger] before[i]).same_image(&before[i + 1]) by {
                assert(states[i].same_image(&states[i + 1]));
            }
        }
        lemma_one_image(before);
        assert(states[states.len() - 2].same_image(&states[states.len() - 1]));
    }
}

/// An open reader keeps, through any calls and whatever came of them, the
/// size of the disk and of a grain, whether it may be written, and a
/// descriptor of the one kind that is read: `monolithicSparse`, with one
/// `SPARSE` extent as long as the header says the disk is.
pub proof fn law_an_open_reader_keeps_its_shape(
    c: Seq<u8>,
    n: int,
    writable: bool,
    served: bool,
    reliable: bool,
    states: Seq<State>,
)
    requires
        states.len() > 0,
        opened(c, n, writable, served, reliable) == Ok::<State, Error>(states[0]),
        one_image(states),
    ensures
        ({
            let s = states.last();
            let h = s.header;
            let d = s.descriptor;
            &&& header_of(c.subrange(0, 512)) == Ok::<SparseHeader, Error>(h)
            &&& h.capacity * 512 <= u64::MAX
            &&& s.disk().len() == h.capacity * 512
            &&& s.geometry().grain_bytes == h.grain_size * 512
            &&& s.writable == writable
            &&& d.create_type == "monolithicSparse"@
            &&& d.extents.len() == 1
            &&& d.extents[0].sectors == h.capacity
            &&& same_ignoring_case(d.extents[0].kind, "SPARSE"@)
        }),
{
    let s = states[0];
    lemma_one_image(states);
    assert(header_stage(c, n, writable) == Ok::<SparseHeader, Error>(s.header));
    assert(descriptor_stage(c, n, writable, s.header) is Ok);
}

} // verus!
