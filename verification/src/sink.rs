use vstd::prelude::*;

verus! {

/// The fatal failures of this tool. Every error terminates the run: there is
/// no recovery, no retry and no partial-failure mode.
#[derive(Clone, Copy, Debug, PartialEq, Eq, Structural)]
pub enum FatalError {
    /// The resolved dependency data could not be located or read.
    InputUnavailable,
    /// The root package could not be determined from the input.
    RootUnresolvable,
    /// The destination could not be created or a write failed mid-stream.
    SinkWriteFailure,
    /// The invocation options were malformed.
    ConfigurationError,
}

/// The human-readable message of each fatal error.
pub open spec fn describe_chars(e: FatalError) -> Seq<char> {
    match e {
        FatalError::InputUnavailable => "resolved dependency data could not be read"@,
        FatalError::RootUnresolvable => "root package could not be determined"@,
        FatalError::SinkWriteFailure => "error rendering graph: write to output failed"@,
        FatalError::ConfigurationError => "invalid invocation options"@,
    }
}

impl FatalError {
    /// The message printed before the process exits with non-zero status.
    pub fn describe(&self) -> (r: String)
        ensures
            r@ == describe_chars(*self),
    {
        match self {
            FatalError::InputUnavailable => String::from_str(
                "resolved dependency data could not be read",
            ),
            FatalError::RootUnresolvable => String::from_str(
                "root package could not be determined",
            ),
            FatalError::SinkWriteFailure => String::from_str(
                "error rendering graph: write to output failed",
            ),
            FatalError::ConfigurationError => String::from_str("invalid invocation options"),
        }
    }
}

/// An in-memory sink that collects the rendered document. The encoder writes
/// through it sequentially; the collected text is then handed to whatever
/// destination the caller has opened.
pub struct WriterCompat {
    out: String,
}

impl View for WriterCompat {
    type V = Seq<char>;

    closed spec fn view(&self) -> Seq<char> {
        self.out@
    }
}

impl WriterCompat {
    /// An empty sink.
    pub fn new() -> (w: WriterCompat)
        ensures
            w@ == Seq::<char>::empty(),
    {
        WriterCompat { out: String::new() }
    }

    /// Appends the whole of `buf` to the sink. Either everything is written
    /// and `Ok` is returned, or an error is returned; for this in-memory sink
    /// the write always succeeds.
    pub fn write_all(&mut self, buf: &str) -> (r: Result<(), FatalError>)
        ensures
            r is Ok,
            final(self)@ == old(self)@ + buf@,
    {
        self.out.append(buf);
        Ok(())
    }

    /// Hands the collected text out.
    pub fn into_string(self) -> (r: String)
        ensures
            r@ == self@,
    {
        self.out
    }
}

} // verus!
