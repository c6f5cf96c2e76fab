//! A request to extract pages: the file to read, the file to write and the
//! pages to keep, as the user gave them.

use vstd::prelude::*;

verus! {

/// What the user asks for.
pub struct ExtractionRequest {
    /// The path of the document to read.
    pub input_path: String,
    /// The path under which to save the result.
    pub output_path: String,
    /// The page-range expression that names the pages to keep.
    pub page_range: String,
}

/// Why a request cannot be carried out as it stands.
#[derive(Debug, Clone, Copy, PartialEq, Eq, Structural)]
pub enum RequestError {
    /// No input path is given.
    MissingInputPath,
    /// No output path is given.
    MissingOutputPath,
    /// No page range is given.
    MissingPageRange,
    /// There is no file at the input path.
    InputNotFound,
}

/// What is wrong with a request of the given texts, if anything. The fields
/// are looked at in the order input path, output path, page range; whether
/// the input file exists counts only if none of the three is empty.
pub open spec fn request_status(
    input_path: Seq<char>,
    output_path: Seq<char>,
    page_range: Seq<char>,
    input_exists: bool,
) -> Result<(), RequestError> {
    if input_path.len() == 0 {
        Err(RequestError::MissingInputPath)
    } else if output_path.len() == 0 {
        Err(RequestError::MissingOutputPath)
    } else if page_range.len() == 0 {
        Err(RequestError::MissingPageRange)
    } else if !input_exists {
        Err(RequestError::InputNotFound)
    } else {
        Ok(())
    }
}

impl ExtractionRequest {
    /// A request in which nothing is filled in yet.
    pub fn new() -> (request: ExtractionRequest)
        ensures
            request.input_path@.len() == 0,
            request.output_path@.len() == 0,
            request.page_range@.len() == 0,
    {
        ExtractionRequest {
            input_path: String::new(),
            output_path: String::new(),
            page_range: String::new(),
        }
    }

    /// Whether all three fields are filled in.
    pub open spec fn is_filled_in(&self) -> bool {
        self.input_path@.len() > 0 && self.output_path@.len() > 0 && self.page_range@.len() > 0
    }

    /// Tells whether all three fields are filled in. Only then is there a
    /// reason to look for the input file.
    pub fn filled_in(&self) -> (filled: bool)
        ensures
            filled == self.is_filled_in(),
    {
        !self.input_path.as_str().is_empty() && !self.output_path.as_str().is_empty()
            && !self.page_range.as_str().is_empty()
    }

    /// Tells what is wrong with the request, if anything. `input_exists`
    /// says whether there is a file at the input path.
    pub fn check(&self, input_exists: bool) -> (status: Result<(), RequestError>)
        ensures
            status == request_status(
                self.input_path@,
                self.output_path@,
                self.page_range@,
                input_exists,
            ),
    {
        if self.input_path.as_str().is_empty() {
            Err(RequestError::MissingInputPath)
        } else if self.output_path.as_str().is_empty() {
            Err(RequestError::MissingOutputPath)
        } else if self.page_range.as_str().is_empty() {
            Err(RequestError::MissingPageRange)
        } else if !input_exists {
            Err(RequestError::InputNotFound)
        } else {
            Ok(())
        }
    }
}

impl Default for ExtractionRequest {
    fn default() -> (request: ExtractionRequest)
        ensures
            request.input_path@.len() == 0,
            request.output_path@.len() == 0,
            request.page_range@.len() == 0,
    {
        ExtractionRequest::new()
    }
}

} // verus!
