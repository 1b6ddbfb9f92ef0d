//! The errors that publishing a graph of notes can end in.

use vstd::prelude::*;

verus! {

/// An error of the publishing library.
#[derive(Debug)]
pub enum PublishError {
    /// A file that could not be parsed.
    Parse { file: String, message: String },
    /// A failed read or write.
    Io(String),
    /// A fault in the graph, such as a missing page.
    Graph(String),
    /// A failed export or rendering.
    Export(String),
    /// Input that the caller should not have given.
    InvalidInput(String),
    /// A path that is not accepted.
    InvalidPath(String),
    /// A failure at the boundary to the host.
    JsInterop(String),
    /// A value that could not be written or read back.
    Serialization(String),
    /// Another error, with the context in which it came.
    WithContext { context: String, message: String },
}

/// What an error holds, as mathematical values.
pub enum PublishErrorView {
    Parse { file: Seq<char>, message: Seq<char> },
    Io(Seq<char>),
    Graph(Seq<char>),
    Export(Seq<char>),
    InvalidInput(Seq<char>),
    InvalidPath(Seq<char>),
    JsInterop(Seq<char>),
    Serialization(Seq<char>),
    WithContext { context: Seq<char>, message: Seq<char> },
}

impl View for PublishError {
    type V = PublishErrorView;

    open spec fn view(&self) -> PublishErrorView {
        match self {
            PublishError::Parse { file, message } => PublishErrorView::Parse {
                file: file@,
                message: message@,
            },
            PublishError::Io(m) => PublishErrorView::Io(m@),
            PublishError::Graph(m) => PublishErrorView::Graph(m@),
            PublishError::Export(m) => PublishErrorView::Export(m@),
            PublishError::InvalidInput(m) => PublishErrorView::InvalidInput(m@),
            PublishError::InvalidPath(m) => PublishErrorView::InvalidPath(m@),
            PublishError::JsInterop(m) => PublishErrorView::JsInterop(m@),
            PublishError::Serialization(m) => PublishErrorView::Serialization(m@),
            PublishError::WithContext { context, message } => PublishErrorView::WithContext {
                context: context@,
                message: message@,
            },
        }
    }
}

/// The text that describes an error to a reader.
pub open spec fn rendered(e: PublishErrorView) -> Seq<char> {
    match e {
        PublishErrorView::Parse { file, message } => "Parse error in "@ + file + ": "@ + message,
        PublishErrorView::Io(m) => "IO error: "@ + m,
        PublishErrorView::Graph(m) => "Graph error: "@ + m,
        PublishErrorView::Export(m) => "Export error: "@ + m,
        PublishErrorView::InvalidInput(m) => "Invalid input: "@ + m,
        PublishErrorView::InvalidPath(m) => "Invalid path: "@ + m,
        PublishErrorView::JsInterop(m) => "JavaScript error: "@ + m,
        PublishErrorView::Serialization(m) => "Serialization error: "@ + m,
        PublishErrorView::WithContext { context, message } => context + ": "@ + message,
    }
}

/// `prefix` followed by `rest`.
fn prefixed(prefix: &str, rest: &String) -> (s: String)
    ensures
        s@ == prefix@ + rest@,
{
    let mut s = String::from_str(prefix);
    s.append(rest.as_str());
    s
}

impl PublishError {
    /// A parse error in `file`.
    pub fn parse(file: &str, message: &str) -> (e: PublishError)
        ensures
            e@ == (PublishErrorView::Parse { file: file@, message: message@ }),
    {
        PublishError::Parse { file: String::from_str(file), message: String::from_str(message) }
    }

    /// An error of reading or writing.
    pub fn io(message: &str) -> (e: PublishError)
        ensures
            e@ == PublishErrorView::Io(message@),
    {
        PublishError::Io(String::from_str(message))
    }

    /// An error in the graph.
    pub fn graph(message: &str) -> (e: PublishError)
        ensures
            e@ == PublishErrorView::Graph(message@),
    {
        PublishError::Graph(String::from_str(message))
    }

    /// An error of exporting.
    pub fn export(message: &str) -> (e: PublishError)
        ensures
            e@ == PublishErrorView::Export(message@),
    {
        PublishError::Export(String::from_str(message))
    }

    /// An error for input that is not accepted.
    pub fn invalid_input(message: &str) -> (e: PublishError)
        ensures
            e@ == PublishErrorView::InvalidInput(message@),
    {
        PublishError::InvalidInput(String::from_str(message))
    }

    /// An error for a path that is not accepted.
    pub fn invalid_path(path: &str) -> (e: PublishError)
        ensures
            e@ == PublishErrorView::InvalidPath(path@),
    {
        PublishError::InvalidPath(String::from_str(path))
    }

    /// An error at the boundary to the host.
    pub fn js_interop(message: &str) -> (e: PublishError)
        ensures
            e@ == PublishErrorView::JsInterop(message@),
    {
        PublishError::JsInterop(String::from_str(message))
    }

    /// An error of writing a value or reading it back.
    pub fn serialization(message: &str) -> (e: PublishError)
        ensures
            e@ == PublishErrorView::Serialization(message@),
    {
        PublishError::Serialization(String::from_str(message))
    }

    /// The text that describes this error to a reader.
    pub fn to_string(&self) -> (s: String)
        ensures
            s@ == rendered(self@),
    {
        match self {
            PublishError::Parse { file, message } => {
                let mut s = String::from_str("Parse error in ");
                s.append(file.as_str());
                s.append(": ");
                s.append(message.as_str());
                s
            },
            PublishError::Io(m) => prefixed("IO error: ", m),
            PublishError::Graph(m) => prefixed("Graph error: ", m),
            PublishError::Export(m) => prefixed("Export error: ", m),
            PublishError::InvalidInput(m) => prefixed("Invalid input: ", m),
            PublishError::InvalidPath(m) => prefixed("Invalid path: ", m),
            PublishError::JsInterop(m) => prefixed("JavaScript error: ", m),
            PublishError::Serialization(m) => prefixed("Serialization error: ", m),
            PublishError::WithContext { context, message } => {
                let mut s = context.clone();
                s.append(": ");
                s.append(message.as_str());
                s
            },
        }
    }

    /// This error, described, under the context in which it came.
    pub fn with_context(self, context: &str) -> (e: PublishError)
        ensures
            e@ == (PublishErrorView::WithContext { context: context@, message: rendered(self@) }),
    {
        let message = self.to_string();
        PublishError::WithContext { context: String::from_str(context), message }
    }
}

} // verus!
