use vstd::prelude::*;
use vstd::string::StringExecFns;
use crate::text::{decimal, push_decimal};

verus! {

/// What went wrong: the text that describes the error.
#[derive(Debug)]
pub struct ErrorInfo {
    message: String,
}

impl View for ErrorInfo {
    type V = Seq<char>;

    closed spec fn view(&self) -> Seq<char> {
        self.message@
    }
}

impl ErrorInfo {
    /// The information of an error described by `message`.
    pub fn new(message: &str) -> (r: ErrorInfo)
        ensures
            r@ == message@,
    {
        ErrorInfo { message: message.to_owned() }
    }

    /// The text that describes the error.
    pub fn message(&self) -> (r: &str)
        ensures
            r@ == self@,
    {
        self.message.as_str()
    }

    pub fn duplicate(&self) -> (r: ErrorInfo)
        ensures
            r@ == self@,
    {
        ErrorInfo { message: self.message.clone() }
    }
}

/// Mathematical value of an [`Error`].
pub struct ErrorSpec {
    /// The text that describes the error.
    pub message: Seq<char>,
    /// The source file where the error was raised, empty when unknown.
    pub file: Seq<char>,
    /// The line in `file`.
    pub line: u32,
    /// Whether the displayed error includes where it was raised.
    pub detailed: bool,
}

/// The error type of this library.
#[derive(Debug)]
pub struct Error {
    info: ErrorInfo,
    file: String,
    line: u32,
    show_details: bool,
}

/// Result type of this library.
pub type Result<T> = core::result::Result<T, Error>;

impl View for Error {
    type V = ErrorSpec;

    closed spec fn view(&self) -> ErrorSpec {
        ErrorSpec { message: self.info@, file: self.file@, line: self.line, detailed: self.show_details }
    }
}

/// The text that locates an error: ` -- at file:line`, or nothing when the
/// file is not known.
pub open spec fn details_text(e: ErrorSpec) -> Seq<char> {
    if e.file.len() != 0 {
        " -- at "@ + e.file + seq![':'] + decimal(e.line as nat)
    } else {
        Seq::empty()
    }
}

/// The displayed text of an error: its message, followed by where it was
/// raised when the error is detailed.
pub open spec fn error_text(e: ErrorSpec) -> Seq<char> {
    if e.detailed {
        e.message + details_text(e)
    } else {
        e.message
    }
}

impl Error {
    /// A new error described by `message`, not located, not detailed.
    pub fn new(message: &str) -> (r: Error)
        ensures
            r@ == (ErrorSpec { message: message@, file: Seq::empty(), line: 0, detailed: false }),
    {
        Error { info: ErrorInfo::new(message), file: String::new(), line: 0, show_details: false }
    }

    /// The error made from the information `info`.
    pub fn from_info(info: ErrorInfo) -> (r: Error)
        ensures
            r@ == (ErrorSpec { message: info@, file: Seq::empty(), line: 0, detailed: false }),
    {
        Error { info, file: String::new(), line: 0, show_details: false }
    }

    /// This error as the failed result.
    pub fn raise<T>(self) -> (r: Result<T>)
        ensures
            r is Err,
            r->Err_0@ == self@,
    {
        Err(self)
    }

    /// This error, located at `line` of `file`.
    pub fn at_file(self, file: &str, line: u32) -> (r: Error)
        ensures
            r@ == (ErrorSpec { file: file@, line: line, ..self@ }),
    {
        Error { info: self.info, file: file.to_owned(), line, show_details: self.show_details }
    }

    /// This error, displayed with where it was raised.
    pub fn detailed(self) -> (r: Error)
        ensures
            r@ == (ErrorSpec { detailed: true, ..self@ }),
    {
        Error { info: self.info, file: self.file, line: self.line, show_details: true }
    }

    /// The information of this error.
    pub fn info(&self) -> (r: &ErrorInfo)
        ensures
            r@ == self@.message,
    {
        &self.info
    }

    /// The text that locates this error: ` -- at file:line`, or nothing when
    /// the file is not known.
    pub fn output_details(&self) -> (r: String)
        ensures
            r@ == details_text(self@),
    {
        let mut out = String::new();
        if !self.file.as_str().is_empty() {
            proof {
                reveal_strlit(" -- at ");
                reveal_strlit(":");
            }
            out.append(" -- at ");
            out.append(self.file.as_str());
            out.append(":");
            push_decimal(&mut out, self.line as u64);
            assert(out@ =~= details_text(self@));
        } else {
            assert(out@ =~= details_text(self@));
        }
        out
    }

    /// The displayed text of this error.
    pub fn to_string(&self) -> (r: String)
        ensures
            r@ == error_text(self@),
    {
        let mut out = String::new();
        out.append(self.info.message());
        if self.show_details {
            let details = self.output_details();
            out.append(details.as_str());
        }
        assert(out@ =~= error_text(self@));
        out
    }

    pub fn duplicate(&self) -> (r: Error)
        ensures
            r@ == self@,
    {
        Error {
            info: self.info.duplicate(),
            file: self.file.clone(),
            line: self.line,
            show_details: self.show_details,
        }
    }
}

impl Clone for Error {
    fn clone(&self) -> (r: Error)
        ensures
            r@ == self@,
    {
        self.duplicate()
    }
}

/// Values that describe an error and can be raised as one.
pub trait IsError: Sized {
    /// The text that describes the error.
    spec fn spec_message(&self) -> Seq<char>;

    /// The error described by this value.
    fn to_error(self) -> (r: Error)
        ensures
            r@ == (ErrorSpec { message: self.spec_message(), file: Seq::empty(), line: 0, detailed: false }),
    ;

    /// The failed result with the error described by this value.
    fn err<T>(self) -> (r: Result<T>)
        ensures
            r is Err,
            r->Err_0@ == (ErrorSpec { message: self.spec_message(), file: Seq::empty(), line: 0, detailed: false }),
    {
        self.to_error().raise()
    }
}

impl IsError for String {
    open spec fn spec_message(&self) -> Seq<char> {
        self@
    }

    fn to_error(self) -> (r: Error) {
        Error::new(self.as_str())
    }
}

impl IsError for ErrorInfo {
    open spec fn spec_message(&self) -> Seq<char> {
        self@
    }

    fn to_error(self) -> (r: Error) {
        Error::from_info(self)
    }
}

/// Results whose error is a described failure, turned into results of this
/// library.
pub trait ResultExtension<T>: Sized {
    /// The value, or the error described by the failure.
    fn raise(self) -> Result<T>;
}

impl<T> ResultExtension<T> for core::result::Result<T, String> {
    fn raise(self) -> (r: Result<T>)
        ensures
            self is Ok ==> r is Ok && r->Ok_0 == self->Ok_0,
            self is Err ==> r is Err && r->Err_0@ == (ErrorSpec {
                message: self->Err_0@,
                file: Seq::empty(),
                line: 0,
                detailed: false,
            }),
    {
        match self {
            Ok(v) => Ok(v),
            Err(msg) => Err(msg.to_error()),
        }
    }
}

} // verus!
