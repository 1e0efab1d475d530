//! A simulated file: a name, some bytes, and whether it is open. Reading is
//! allowed only while it is open.

use crate::codec::push_bytes;
use vstd::prelude::*;
use vstd::string::StringExecFns;

verus! {

/// Whether a file can be read.
#[derive(Debug, Clone, Copy, PartialEq, Eq, Structural)]
pub enum FileState {
    Open,
    Closed,
}

impl FileState {
    /// The state in capital letters.
    pub open spec fn label(&self) -> Seq<char> {
        match self {
            FileState::Open => "OPEN"@,
            FileState::Closed => "CLOSED"@,
        }
    }

    /// The state in capital letters.
    pub fn as_str(&self) -> (s: &'static str)
        ensures
            s@ == self.label(),
    {
        match self {
            FileState::Open => "OPEN",
            FileState::Closed => "CLOSED",
        }
    }
}

/// A file by name, with its bytes held in memory.
#[derive(Debug)]
pub struct File {
    name: String,
    data: Vec<u8>,
    state: FileState,
}

/// The message of a read from a file that is not open.
pub open spec fn not_open_message() -> Seq<char> {
    "File must be open for reading"@
}

impl File {
    /// The file's name.
    pub closed spec fn name_view(&self) -> Seq<char> {
        self.name@
    }

    /// The file's bytes.
    pub closed spec fn data_view(&self) -> Seq<u8> {
        self.data@
    }

    /// The file's state.
    pub closed spec fn state_view(&self) -> FileState {
        self.state
    }

    /// How the file shows: its name, then its state in brackets.
    pub open spec fn display_view(&self) -> Seq<char> {
        "<"@ + self.name_view() + " ("@ + self.state_view().label() + ")>"@
    }

    /// Creates a new, empty, closed file.
    pub fn new(name: &str) -> (f: File)
        ensures
            f.name_view() == name@,
            f.data_view() == Seq::<u8>::empty(),
            f.state_view() == FileState::Closed,
    {
        File { name: String::from_str(name), data: Vec::new(), state: FileState::Closed }
    }

    /// The file's length in bytes.
    pub fn len(&self) -> (n: usize)
        ensures
            n == self.data_view().len(),
    {
        self.data.len()
    }

    /// The file's name.
    pub fn name(&self) -> (name: String)
        ensures
            name@ == self.name_view(),
    {
        self.name.clone()
    }

    /// Whether the file is open.
    pub fn is_open(&self) -> (open: bool)
        ensures
            open == (self.state_view() == FileState::Open),
    {
        match self.state {
            FileState::Open => true,
            FileState::Closed => false,
        }
    }

    /// Creates a closed file that holds a copy of `data`.
    pub fn new_with_data(name: &str, data: &Vec<u8>) -> (f: File)
        ensures
            f.name_view() == name@,
            f.data_view() == data@,
            f.state_view() == FileState::Closed,
    {
        let mut f = File::new(name);
        push_bytes(&mut f.data, data.as_slice());
        assert(f.data@ =~= data@);
        f
    }

    /// Appends the file's bytes to `save_to` and returns how many they are. A
    /// file that is not open gives an error, and `save_to` stays as it was.
    pub fn read(&mut self, save_to: &mut Vec<u8>) -> (r: Result<usize, String>)
        ensures
            *final(self) == *old(self),
            match r {
                Ok(n) => {
                    &&& old(self).state_view() == FileState::Open
                    &&& n == old(self).data_view().len()
                    &&& final(save_to)@ == old(save_to)@ + old(self).data_view()
                },
                Err(message) => {
                    &&& old(self).state_view() != FileState::Open
                    &&& message@ == not_open_message()
                    &&& final(save_to)@ == old(save_to)@
                },
            },
    {
        match self.state {
            FileState::Closed => Err(String::from_str("File must be open for reading")),
            FileState::Open => {
                let read_length: usize = self.data.len();
                push_bytes(save_to, self.data.as_slice());
                Ok(read_length)
            },
        }
    }

    /// How the file shows: its name, then its state in brackets.
    pub fn display(&self) -> (text: String)
        ensures
            text@ == self.display_view(),
    {
        let mut text: String = String::from_str("<");
        text.append(self.name.as_str());
        text.append(" (");
        text.append(self.state.as_str());
        text.append(")>");
        text
    }
}

/// Opens the file: it can be read from then.
pub fn open(f: File) -> (r: Result<File, String>)
    ensures
        r is Ok,
        r->Ok_0.name_view() == f.name_view(),
        r->Ok_0.data_view() == f.data_view(),
        r->Ok_0.state_view() == FileState::Open,
{
    let mut f = f;
    f.state = FileState::Open;
    Ok(f)
}

/// Closes the file: it cannot be read from until it is opened again.
pub fn close(f: File) -> (r: Result<File, String>)
    ensures
        r is Ok,
        r->Ok_0.name_view() == f.name_view(),
        r->Ok_0.data_view() == f.data_view(),
        r->Ok_0.state_view() == FileState::Closed,
{
    let mut f = f;
    f.state = FileState::Closed;
    Ok(f)
}

} // verus!
