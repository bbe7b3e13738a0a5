//! Errors with an HTTP status, and the page that shows one to a person.

use vstd::prelude::*;
use vstd::string::StringExecFns;

verus! {

/// The status of a request that the client got wrong.
pub const BAD_REQUEST: u16 = 400;

/// The status of a failure on the server's side.
pub const INTERNAL_SERVER_ERROR: u16 = 500;

/// What an error page holds before the report.
pub const PAGE_HEAD: &'static str =
    "<!DOCTYPE html><html><head><meta charset=\"utf8\"></head><body><pre><code>";

/// What an error page holds after the report.
pub const PAGE_TAIL: &'static str = "</code></pre></body></html>";

/// The report of a panic whose payload is no text.
pub const UNKNOWN_PANIC: &'static str =
    "Service panicked but `CatchPanic` was unable to downcast the panic info";

/// A status code and a report, which may hold ANSI escape codes.
#[derive(Clone, Debug, PartialEq, Eq)]
pub struct Error(pub u16, pub String);

impl View for Error {
    type V = (u16, Seq<char>);

    open spec fn view(&self) -> (u16, Seq<char>) {
        (self.0, self.1@)
    }
}

/// The HTML that `ansi_to_html::convert` makes of a text with ANSI escape
/// codes, or `None` where it rejects the text.
pub uninterp spec fn ansi_html(ansi: Seq<char>) -> Option<Seq<char>>;

/// Calls `ansi_to_html::convert`. Trusted: the outcome depends on the text
/// alone; nothing more is claimed of it.
#[verifier::external_body]
fn convert_ansi(ansi: &str) -> (html: Option<String>)
    ensures
        match html {
            Some(h) => ansi_html(ansi@) == Some(h@),
            None => ansi_html(ansi@) is None,
        },
{
    ansi_to_html::convert(ansi).ok()
}

/// The page around a report that is already HTML.
pub open spec fn page_of(html: Seq<char>) -> Seq<char> {
    PAGE_HEAD@ + html + PAGE_TAIL@
}

/// Puts a report that is already HTML into the error page.
pub fn error_page(html: &str) -> (page: String)
    ensures
        page@ == page_of(html@),
{
    let mut page = String::from_str(PAGE_HEAD);
    page.append(html);
    page.append(PAGE_TAIL);
    page
}

impl Error {
    /// The status code.
    pub fn status(&self) -> (code: u16)
        ensures
            code == self.0,
    {
        self.0
    }

    /// The error as a page of HTML: the report with its escape codes turned
    /// into markup, inside the page. `None` where the report holds an escape
    /// code that cannot be converted.
    pub fn to_html(&self) -> (page: Option<String>)
        ensures
            match page {
                Some(p) => ansi_html(self.1@) matches Some(h) && p@ == page_of(h),
                None => ansi_html(self.1@) is None,
            },
    {
        match convert_ansi(self.1.as_str()) {
            Some(html) => Some(error_page(html.as_str())),
            None => None,
        }
    }
}

/// Gives an error without a status the status it is to be reported with.
pub trait WithStatusCode<T> {
    fn with_status_code(self, code: u16) -> Result<T, Error>;
}

impl<T> WithStatusCode<T> for Result<T, String> {
    fn with_status_code(self, code: u16) -> (r: Result<T, Error>)
        ensures
            match self {
                Ok(v) => r == Ok::<T, Error>(v),
                Err(report) => r matches Err(e) && e@ == (code, report@),
            },
    {
        match self {
            Ok(v) => Ok(v),
            Err(report) => Err(Error(code, report)),
        }
    }
}

/// Turns a panic in a request handler into an error to answer with.
#[derive(Clone, Copy, Debug)]
pub struct PanicHandler;

impl PanicHandler {
    /// The error for a panic: a server failure whose report is the panic's
    /// text, or a fixed sentence where the panic carried no text.
    pub fn response_for_panic(&mut self, text: Option<&str>) -> (e: Error)
        ensures
            e@ == (
                INTERNAL_SERVER_ERROR,
                match text {
                    Some(t) => t@,
                    None => UNKNOWN_PANIC@,
                },
            ),
    {
        let report = match text {
            Some(t) => String::from_str(t),
            None => String::from_str(UNKNOWN_PANIC),
        };
        Error(INTERNAL_SERVER_ERROR, report)
    }
}

} // verus!
