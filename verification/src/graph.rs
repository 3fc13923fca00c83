//! Graph capture: device work is recorded once and replayed with one launch.
//!
//! Work issued between the start and the end of a capture goes into a graph
//! instead of being carried out. Everything in it has to run on one stream, keep
//! its shapes and addresses across replays, and not wait for the device. While a
//! capture is under way, code that would have to allocate can see so and fail
//! loudly instead of corrupting it.
use std::sync::Arc;
use vstd::prelude::*;

use crate::stream::{
    end, end_answered, launch_answered, launch_graph, start, start_answered, Capturing,
};
use cudarc::driver::{CudaGraph, CudaStream, DriverError};

verus! {

/// Whether a capture is under way.
#[derive(Clone, Copy, PartialEq, Eq, Structural, Debug)]
pub struct CaptureFlag {
    pub capturing: bool,
}

/// A capture is under way.
pub fn is_capturing(flag: &CaptureFlag) -> (r: bool)
    ensures
        r == flag.capturing,
{
    flag.capturing
}

impl CaptureFlag {
    pub fn new() -> (r: CaptureFlag)
        ensures
            !r.capturing,
    {
        CaptureFlag { capturing: false }
    }

    /// The captured work broke off without an answer: the flag does not stay up.
    pub fn abandoned(&mut self)
        ensures
            !final(self).capturing,
    {
        self.capturing = false;
    }
}

/// Why there is no graph.
pub enum CaptureError<E> {
    /// The capture could not be started.
    NotStarted(DriverError),
    /// The captured work failed.
    Work(E),
    /// The capture could not be ended.
    NotEnded(DriverError),
    /// The capture ended without a graph.
    NoGraph,
}

/// Work that can be replayed.
pub struct CapturedGraph {
    pub graph: CudaGraph,
}

/// What a capture gives, from what the work and the end of the capture reported.
/// The work's own failure comes before anything that the end reports.
pub open spec fn concluded<E>(
    run: Result<(), E>,
    end: Result<Option<CudaGraph>, DriverError>,
) -> Result<CapturedGraph, CaptureError<E>> {
    match run {
        Err(e) => Err(CaptureError::Work(e)),
        Ok(_) => match end {
            Err(e) => Err(CaptureError::NotEnded(e)),
            Ok(None) => Err(CaptureError::NoGraph),
            Ok(Some(graph)) => Ok(CapturedGraph { graph }),
        },
    }
}

/// What a capture gives, from what the work and the end of the capture reported.
pub fn conclude<E>(run: Result<(), E>, end: Result<Option<CudaGraph>, DriverError>) -> (r: Result<
    CapturedGraph,
    CaptureError<E>,
>)
    ensures
        r == concluded(run, end),
{
    match run {
        Err(e) => Err(CaptureError::Work(e)),
        Ok(_) => match end {
            Err(e) => Err(CaptureError::NotEnded(e)),
            Ok(None) => Err(CaptureError::NoGraph),
            Ok(Some(graph)) => Ok(CapturedGraph { graph }),
        },
    }
}

impl CapturedGraph {
    /// Records what `f` issues on the stream into a graph. `f` does one
    /// representative round of the work on buffers that stay where they are; it
    /// is handed the flag, which is up for the time of the work, and the capture
    /// itself, which has been started and not yet ended. Afterwards the flag is
    /// what it was before: down, or up where this capture was made within the
    /// work of another. A capture that was started is always ended, whatever
    /// came of the work, so that the stream is left usable; one that could not
    /// be started runs no work.
    pub fn capture<E, F: FnOnce(CaptureFlag, &Capturing) -> Result<(), E>>(
        flag: &mut CaptureFlag,
        stream: &Arc<CudaStream>,
        f: F,
    ) -> (r: Result<CapturedGraph, CaptureError<E>>)
        requires
            forall|c: Capturing| #[trigger]
                call_requires(f, (CaptureFlag { capturing: true }, &c)),
        ensures
            *final(flag) == *old(flag),
            r matches Err(CaptureError::NotStarted(e)) ==> start_answered(*stream, Err(e)),
            !(r matches Err(CaptureError::NotStarted(_))) ==> exists|
                c: Capturing,
                run: Result<(), E>,
                end: Result<Option<CudaGraph>, DriverError>,
            |
                start_answered(*stream, Ok(c)) && #[trigger] call_ensures(
                    f,
                    (CaptureFlag { capturing: true }, &c),
                    run,
                ) && #[trigger] end_answered(*stream, c, end) && r == concluded(run, end),
    {
        match start(stream) {
            Err(e) => Err(CaptureError::NotStarted(e)),
            Ok(started) => {
                let before = *flag;
                let up = CaptureFlag { capturing: true };
                *flag = up;
                assert(call_requires(f, (up, &started)));
                let run = f(up, &started);
                let ended = end(stream, started);
                *flag = before;
                conclude(run, ended)
            },
        }
    }

    /// Replays the captured work with a single launch of its graph, and hands on
    /// the driver's answer.
    pub fn replay(&self) -> (r: Result<(), DriverError>)
        ensures
            launch_answered(self.graph, r),
    {
        launch_graph(&self.graph)
    }
}

/// There is a graph to replay exactly when the work succeeded and the capture
/// ended with one; and failed work is what is reported, whatever the end was.
pub proof fn law_graph_iff_all_well<E>(
    run: Result<(), E>,
    end: Result<Option<CudaGraph>, DriverError>,
)
    ensures
        concluded(run, end) is Ok <==> run is Ok && end is Ok && end->Ok_0 is Some,
        run is Err ==> concluded(run, end) == Err::<CapturedGraph, CaptureError<E>>(
            CaptureError::Work(run->Err_0),
        ),
        concluded(run, end) is Ok ==> concluded(run, end)->Ok_0.graph == end->Ok_0->0,
{
}

} // verus!
