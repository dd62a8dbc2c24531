use vstd::prelude::*;

verus! {

/// An error raised by input that the program cannot understand.
#[derive(Debug)]
pub struct InputError {
    pub msg: String,
}

impl InputError {
    pub fn new(msg: &str) -> (e: InputError)
        ensures
            e.msg@ == msg@,
    {
        InputError { msg: String::from_str(msg) }
    }

    /// The text by which the error presents itself.
    pub fn describe(&self) -> (s: String)
        ensures
            s@ == "Invalid input: "@ + self.msg@,
    {
        let mut s = String::from_str("Invalid input: ");
        s.append(self.msg.as_str());
        s
    }
}

/// An error raised by an argument outside the range that a function handles.
#[derive(Debug)]
pub struct ValueError {
    pub msg: String,
}

impl ValueError {
    pub fn new(msg: &str) -> (e: ValueError)
        ensures
            e.msg@ == msg@,
    {
        ValueError { msg: String::from_str(msg) }
    }

    /// The text by which the error presents itself.
    pub fn describe(&self) -> (s: String)
        ensures
            s@ == "Invalid argument: "@ + self.msg@,
    {
        let mut s = String::from_str("Invalid argument: ");
        s.append(self.msg.as_str());
        s
    }
}

} // verus!
