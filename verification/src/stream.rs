//! The driver's calls on a stream of the device.
use std::sync::Arc;
use vstd::prelude::*;

use cudarc::driver::{CudaGraph, CudaStream, DriverError};

verus! {

/// A stream of the device, on which work is issued in order.
#[verifier::external_type_specification]
#[verifier::external_body]
pub struct ExCudaStream(cudarc::driver::CudaStream);

/// Captured work, ready to be launched.
#[verifier::external_type_specification]
#[verifier::external_body]
pub struct ExCudaGraph(cudarc::driver::CudaGraph);

/// What the driver reports when a call fails.
#[verifier::external_type_specification]
#[verifier::external_body]
pub struct ExDriverError(cudarc::driver::DriverError);

/// A capture that was started and has not been ended. Starting one is the only
/// way to get it, it cannot be doubled, and ending the capture takes it away:
/// whatever is handed it runs in between.
pub struct Capturing {
    mark: Ghost<int>,
}

/// `CudaStream::begin_capture`, in the relaxed mode. Whether the driver starts
/// the capture is up to it; nothing is claimed of the answer.
#[verifier::external_body]
fn begin_capture(stream: &Arc<CudaStream>) -> (r: Result<Capturing, DriverError>)
{
    match stream.begin_capture(
        cudarc::driver::sys::CUstreamCaptureMode::CU_STREAM_CAPTURE_MODE_RELAXED,
    ) {
        Ok(_) => Ok(Capturing { mark: Ghost(0) }),
        Err(e) => Err(e),
    }
}

/// `CudaStream::end_capture`, with memory that the graph allocated freed at each
/// launch. Whether there is a graph is up to the driver; nothing is claimed of
/// the answer.
#[verifier::external_body]
fn end_capture(stream: &Arc<CudaStream>, started: Capturing) -> (r: Result<
    Option<CudaGraph>,
    DriverError,
>)
{
    stream.end_capture(
        cudarc::driver::sys::CUgraphInstantiate_flags::CUDA_GRAPH_INSTANTIATE_FLAG_AUTO_FREE_ON_LAUNCH,
    )
}

/// `CudaGraph::launch`. Nothing is claimed of the answer.
#[verifier::external_body]
fn launch(graph: &CudaGraph) -> (r: Result<(), DriverError>)
{
    graph.launch()
}

/// The driver answered the start of a capture on the stream with `r`.
pub closed spec fn start_answered(
    stream: Arc<CudaStream>,
    r: Result<Capturing, DriverError>,
) -> bool {
    call_ensures(begin_capture, (&stream,), r)
}

/// The driver answered the end of the capture `started` on the stream with `r`.
pub closed spec fn end_answered(
    stream: Arc<CudaStream>,
    started: Capturing,
    r: Result<Option<CudaGraph>, DriverError>,
) -> bool {
    call_ensures(end_capture, (&stream, started), r)
}

/// The driver answered a launch of the graph with `r`.
pub closed spec fn launch_answered(graph: CudaGraph, r: Result<(), DriverError>) -> bool {
    call_ensures(launch, (&graph,), r)
}

/// Starts a capture.
pub(crate) fn start(stream: &Arc<CudaStream>) -> (r: Result<Capturing, DriverError>)
    ensures
        start_answered(*stream, r),
{
    begin_capture(stream)
}

/// Ends a capture.
pub(crate) fn end(stream: &Arc<CudaStream>, started: Capturing) -> (r: Result<
    Option<CudaGraph>,
    DriverError,
>)
    ensures
        end_answered(*stream, started, r),
{
    end_capture(stream, started)
}

/// Launches captured work.
pub(crate) fn launch_graph(graph: &CudaGraph) -> (r: Result<(), DriverError>)
    ensures
        launch_answered(*graph, r),
{
    launch(graph)
}

} // verus!
