use vstd::prelude::*;
use crate::container::Container;
use crate::error::FsError;
use crate::filesystem::FileSystem;
use crate::model::read_spec;

verus! {

/// The three buffers of a `Stdio`.
pub struct StdioView {
    pub input: Seq<u8>,
    pub output: Seq<u8>,
    pub error: Seq<u8>,
}

/// The line feed.
pub open spec fn line_feed() -> u8 {
    10u8
}

/// `text` as it is printed: without one line feed at its end and, after
/// that, without one at its start.
pub open spec fn trimmed(text: Seq<u8>) -> Seq<u8> {
    let cut = if text.len() > 0 && text.last() == line_feed() {
        text.drop_last()
    } else {
        text
    };
    if cut.len() > 0 && cut[0] == line_feed() {
        cut.skip(1)
    } else {
        cut
    }
}

/// Buffers between the engine and the terminal.
#[derive(Debug)]
pub struct Stdio {
    input_buffer: Vec<u8>,
    output_buffer: Vec<u8>,
    error_buffer: Vec<u8>,
}

impl View for Stdio {
    type V = StdioView;

    closed spec fn view(&self) -> StdioView {
        StdioView {
            input: self.input_buffer@,
            output: self.output_buffer@,
            error: self.error_buffer@,
        }
    }
}

impl Clone for Stdio {
    fn clone(&self) -> (copy: Stdio)
        ensures
            copy@ == self@,
    {
        Stdio {
            input_buffer: self.input_buffer.clone(),
            output_buffer: self.output_buffer.clone(),
            error_buffer: self.error_buffer.clone(),
        }
    }
}

/// Appends `data` to `buffer`.
fn append_bytes(buffer: &mut Vec<u8>, data: &[u8])
    ensures
        final(buffer)@ == old(buffer)@ + data@,
{
    let mut i: usize = 0;
    while i < data.len()
        invariant
            i <= data@.len(),
            buffer@ == old(buffer)@ + data@.take(i as int),
        decreases data@.len() - i,
    {
        buffer.push(data[i]);
        proof {
            assert(buffer@ =~= old(buffer)@ + data@.take(i + 1));
        }
        i += 1;
    }
    proof {
        assert(data@.take(data@.len() as int) =~= data@);
        assert(old(buffer)@ + data@.take(0) =~= old(buffer)@);
    }
}

/// Empties `buffer` and gives back what it held, trimmed for printing.
fn drain_trimmed(buffer: &mut Vec<u8>) -> (text: Vec<u8>)
    ensures
        text@ == trimmed(old(buffer)@),
        final(buffer)@ == Seq::<u8>::empty(),
{
    let n = buffer.len();
    let end: usize = if n > 0 && buffer[n - 1] == 10u8 {
        n - 1
    } else {
        n
    };
    let start: usize = if end > 0 && buffer[0] == 10u8 {
        1
    } else {
        0
    };
    let mut text: Vec<u8> = Vec::new();
    let mut i: usize = start;
    while i < end
        invariant
            start <= i <= end,
            end <= buffer@.len(),
            text@ == buffer@.subrange(start as int, i as int),
        decreases end - i,
    {
        text.push(buffer[i]);
        proof {
            assert(text@ =~= buffer@.subrange(start as int, i + 1));
        }
        i += 1;
    }
    proof {
        assert(buffer@.subrange(start as int, end as int) =~= trimmed(buffer@));
    }
    buffer.clear();
    text
}

impl Stdio {
    /// Three empty buffers.
    pub fn new() -> (io: Stdio)
        ensures
            io@ == (StdioView {
                input: Seq::<u8>::empty(),
                output: Seq::<u8>::empty(),
                error: Seq::<u8>::empty(),
            }),
    {
        Stdio { input_buffer: Vec::new(), output_buffer: Vec::new(), error_buffer: Vec::new() }
    }

    /// Replaces the pending output by the content of the file under
    /// `name`. On a failure the buffers stay as they are.
    pub fn read_file(&mut self, name: &str, container: &Container, fs: &FileSystem) -> (r: Result<
        (),
        FsError,
    >)
        requires
            fs.wf(),
        ensures
            match read_spec(fs@, container@, name@) {
                Ok(data) => r == Ok::<(), FsError>(()) && final(self)@ == (StdioView {
                    output: data,
                    ..old(self)@
                }),
                Err(e) => r == Err::<(), FsError>(e) && final(self)@ == old(self)@,
            },
    {
        match fs.read_file(name, container) {
            Err(e) => Err(e),
            Ok(data) => {
                self.output_buffer = data;
                Ok(())
            },
        }
    }

    /// Appends `data` to the pending output.
    pub fn write(&mut self, data: &[u8])
        ensures
            final(self)@ == (StdioView { output: old(self)@.output + data@, ..old(self)@ }),
    {
        append_bytes(&mut self.output_buffer, data);
    }

    /// Appends `data` to the pending error text.
    pub fn error(&mut self, data: &[u8])
        ensures
            final(self)@ == (StdioView { error: old(self)@.error + data@, ..old(self)@ }),
    {
        append_bytes(&mut self.error_buffer, data);
    }

    /// Takes the pending output for printing: trimmed, and the buffer is
    /// empty afterwards.
    pub fn print(&mut self) -> (text: Vec<u8>)
        ensures
            text@ == trimmed(old(self)@.output),
            final(self)@ == (StdioView { output: Seq::<u8>::empty(), ..old(self)@ }),
    {
        drain_trimmed(&mut self.output_buffer)
    }

    /// Takes the pending error text for printing: trimmed, and the buffer
    /// is empty afterwards.
    pub fn print_error(&mut self) -> (text: Vec<u8>)
        ensures
            text@ == trimmed(old(self)@.error),
            final(self)@ == (StdioView { error: Seq::<u8>::empty(), ..old(self)@ }),
    {
        drain_trimmed(&mut self.error_buffer)
    }
}

} // verus!
