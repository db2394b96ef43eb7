//! The conversion entry points' configuration: one builder per pipeline,
//! accumulating paths as plain strings, validated in one step before any
//! work starts. The first unset required field is reported by name.
//! Opening, reading and writing the files the paths point at is the
//! caller's part; the builders only hold and validate the configuration.
use vstd::prelude::*;

verus! {

use vstd::string::StringExecFns;

use crate::records::ConversionError;

/// The contents of an optional path, as a character sequence.
pub open spec fn path_view(o: Option<String>) -> Option<Seq<char>> {
    match o {
        Some(s) => Some(s@),
        None => None,
    }
}

/// Appends a fixed suffix to a base path.
fn concat_path(base: &str, suffix: &str) -> (r: String)
    ensures
        r@ == base@ + suffix@,
{
    let mut path = String::from_str(base);
    path.append(suffix);
    path
}

/// CIFF to PISA converter configuration.
pub struct CiffToPisa {
    /// Path of the CIFF input file.
    pub input: Option<String>,
    /// Path of the `.docs` output.
    pub documents_path: Option<String>,
    /// Path of the `.freqs` output.
    pub frequencies_path: Option<String>,
    /// Path of the `.sizes` output.
    pub sizes_path: Option<String>,
    /// Path of the `.terms` output.
    pub terms_path: Option<String>,
    /// Path of the `.documents` output.
    pub titles_path: Option<String>,
    /// Path of the term lexicon output, if one is wanted.
    pub termlex_path: Option<String>,
    /// Path of the document lexicon output, if one is wanted.
    pub doclex_path: Option<String>,
}

impl Default for CiffToPisa {
    /// An empty configuration: every path unset.
    fn default() -> (r: Self)
        ensures
            r.input is None,
            r.documents_path is None,
            r.frequencies_path is None,
            r.sizes_path is None,
            r.terms_path is None,
            r.titles_path is None,
            r.termlex_path is None,
            r.doclex_path is None,
    {
        CiffToPisa {
            input: None,
            documents_path: None,
            frequencies_path: None,
            sizes_path: None,
            terms_path: None,
            titles_path: None,
            termlex_path: None,
            doclex_path: None,
        }
    }
}

impl CiffToPisa {
    /// Sets the CIFF input path. Required.
    pub fn input_path(&mut self, path: &str)
        ensures
            path_view(final(self).input) == Some(path@),
            final(self).documents_path == old(self).documents_path,
            final(self).frequencies_path == old(self).frequencies_path,
            final(self).sizes_path == old(self).sizes_path,
            final(self).terms_path == old(self).terms_path,
            final(self).titles_path == old(self).titles_path,
            final(self).termlex_path == old(self).termlex_path,
            final(self).doclex_path == old(self).doclex_path,
    {
        self.input = Some(String::from_str(path));
    }

    /// Sets all PISA output paths from one base path, by appending the
    /// extension of each stream: `.docs`, `.freqs`, `.sizes`, `.terms`,
    /// `.documents`, `.termlex` and `.doclex`.
    pub fn output_paths(&mut self, base_path: &str)
        ensures
            final(self).input == old(self).input,
            path_view(final(self).documents_path) == Some(base_path@ + ".docs"@),
            path_view(final(self).frequencies_path) == Some(base_path@ + ".freqs"@),
            path_view(final(self).sizes_path) == Some(base_path@ + ".sizes"@),
            path_view(final(self).terms_path) == Some(base_path@ + ".terms"@),
            path_view(final(self).titles_path) == Some(base_path@ + ".documents"@),
            path_view(final(self).termlex_path) == Some(base_path@ + ".termlex"@),
            path_view(final(self).doclex_path) == Some(base_path@ + ".doclex"@),
    {
        self.documents_path = Some(concat_path(base_path, ".docs"));
        self.frequencies_path = Some(concat_path(base_path, ".freqs"));
        self.sizes_path = Some(concat_path(base_path, ".sizes"));
        self.terms_path = Some(concat_path(base_path, ".terms"));
        self.titles_path = Some(concat_path(base_path, ".documents"));
        self.termlex_path = Some(concat_path(base_path, ".termlex"));
        self.doclex_path = Some(concat_path(base_path, ".doclex"));
    }

    /// Do not construct document and term lexicons.
    pub fn skip_lexicons(&mut self)
        ensures
            final(self).input == old(self).input,
            final(self).documents_path == old(self).documents_path,
            final(self).frequencies_path == old(self).frequencies_path,
            final(self).sizes_path == old(self).sizes_path,
            final(self).terms_path == old(self).terms_path,
            final(self).titles_path == old(self).titles_path,
            final(self).termlex_path is None,
            final(self).doclex_path is None,
    {
        self.termlex_path = None;
        self.doclex_path = None;
    }

    /// Checks that every required path is set, reporting the first unset
    /// field, in the order the fields are needed.
    pub fn validate(&self) -> (r: Result<(), ConversionError>)
        ensures
            match r {
                Ok(()) => {
                    &&& self.input is Some
                    &&& self.documents_path is Some
                    &&& self.frequencies_path is Some
                    &&& self.sizes_path is Some
                    &&& self.terms_path is Some
                    &&& self.titles_path is Some
                },
                Err(e) => {
                    &&& !(self.input is Some && self.documents_path is Some
                        && self.frequencies_path is Some && self.sizes_path is Some
                        && self.terms_path is Some && self.titles_path is Some)
                    &&& match e {
                        ConversionError::MissingField(f) => f@ == if self.input is None {
                            "input path undefined"@
                        } else if self.documents_path is None {
                            "document postings path undefined"@
                        } else if self.frequencies_path is None {
                            "frequency postings path undefined"@
                        } else if self.sizes_path is None {
                            "document sizes path undefined"@
                        } else {
                            "terms path undefined"@
                        },
                        _ => false,
                    }
                },
            },
    {
        if self.input.is_none() {
            return Err(ConversionError::MissingField("input path undefined"));
        }
        if self.documents_path.is_none() {
            return Err(ConversionError::MissingField("document postings path undefined"));
        }
        if self.frequencies_path.is_none() {
            return Err(ConversionError::MissingField("frequency postings path undefined"));
        }
        if self.sizes_path.is_none() {
            return Err(ConversionError::MissingField("document sizes path undefined"));
        }
        if self.terms_path.is_none() {
            return Err(ConversionError::MissingField("terms path undefined"));
        }
        if self.titles_path.is_none() {
            return Err(ConversionError::MissingField("terms path undefined"));
        }
        Ok(())
    }
}

/// PISA to CIFF converter configuration.
pub struct PisaToCiff {
    /// Path of the `.docs` input.
    pub documents_path: Option<String>,
    /// Path of the `.freqs` input.
    pub frequencies_path: Option<String>,
    /// Path of the `.sizes` input.
    pub sizes_path: Option<String>,
    /// Path of the `.terms` input.
    pub terms_path: Option<String>,
    /// Path of the `.documents` input.
    pub titles_path: Option<String>,
    /// Path of the CIFF output file.
    pub output_path: Option<String>,
    /// Free-text description stored in the output header.
    pub description: String,
}

impl Default for PisaToCiff {
    /// An empty configuration: every path unset, the description empty.
    fn default() -> (r: Self)
        ensures
            r.documents_path is None,
            r.frequencies_path is None,
            r.sizes_path is None,
            r.terms_path is None,
            r.titles_path is None,
            r.output_path is None,
            r.description@ == Seq::<char>::empty(),
    {
        PisaToCiff {
            documents_path: None,
            frequencies_path: None,
            sizes_path: None,
            terms_path: None,
            titles_path: None,
            output_path: None,
            description: String::new(),
        }
    }
}

impl PisaToCiff {
    /// Sets the CIFF index description.
    pub fn description(&mut self, description: &str)
        ensures
            final(self).description@ == description@,
            final(self).documents_path == old(self).documents_path,
            final(self).frequencies_path == old(self).frequencies_path,
            final(self).sizes_path == old(self).sizes_path,
            final(self).terms_path == old(self).terms_path,
            final(self).titles_path == old(self).titles_path,
            final(self).output_path == old(self).output_path,
    {
        self.description = String::from_str(description);
    }

    /// Sets every PISA input path from one base path: the three binary
    /// streams and both text files.
    pub fn pisa_paths(&mut self, base_path: &str)
        ensures
            path_view(final(self).documents_path) == Some(base_path@ + ".docs"@),
            path_view(final(self).frequencies_path) == Some(base_path@ + ".freqs"@),
            path_view(final(self).sizes_path) == Some(base_path@ + ".sizes"@),
            path_view(final(self).terms_path) == Some(base_path@ + ".terms"@),
            path_view(final(self).titles_path) == Some(base_path@ + ".documents"@),
            final(self).output_path == old(self).output_path,
            final(self).description == old(self).description,
    {
        self.documents_path = Some(concat_path(base_path, ".docs"));
        self.frequencies_path = Some(concat_path(base_path, ".freqs"));
        self.sizes_path = Some(concat_path(base_path, ".sizes"));
        self.terms_path = Some(concat_path(base_path, ".terms"));
        self.titles_path = Some(concat_path(base_path, ".documents"));
    }

    /// Sets the three binary stream paths from one base path, leaving the
    /// text file paths alone.
    pub fn index_paths(&mut self, base_path: &str)
        ensures
            path_view(final(self).documents_path) == Some(base_path@ + ".docs"@),
            path_view(final(self).frequencies_path) == Some(base_path@ + ".freqs"@),
            path_view(final(self).sizes_path) == Some(base_path@ + ".sizes"@),
            final(self).terms_path == old(self).terms_path,
            final(self).titles_path == old(self).titles_path,
            final(self).output_path == old(self).output_path,
            final(self).description == old(self).description,
    {
        self.documents_path = Some(concat_path(base_path, ".docs"));
        self.frequencies_path = Some(concat_path(base_path, ".freqs"));
        self.sizes_path = Some(concat_path(base_path, ".sizes"));
    }

    /// Sets the path of the terms text file. Required.
    pub fn terms_path(&mut self, path: &str)
        ensures
            path_view(final(self).terms_path) == Some(path@),
            final(self).documents_path == old(self).documents_path,
            final(self).frequencies_path == old(self).frequencies_path,
            final(self).sizes_path == old(self).sizes_path,
            final(self).titles_path == old(self).titles_path,
            final(self).output_path == old(self).output_path,
            final(self).description == old(self).description,
    {
        self.terms_path = Some(String::from_str(path));
    }

    /// Sets the path of the document titles text file. Required.
    pub fn titles_path(&mut self, path: &str)
        ensures
            path_view(final(self).titles_path) == Some(path@),
            final(self).documents_path == old(self).documents_path,
            final(self).frequencies_path == old(self).frequencies_path,
            final(self).sizes_path == old(self).sizes_path,
            final(self).terms_path == old(self).terms_path,
            final(self).output_path == old(self).output_path,
            final(self).description == old(self).description,
    {
        self.titles_path = Some(String::from_str(path));
    }

    /// Sets the output file path. Required.
    pub fn output_path(&mut self, path: &str)
        ensures
            path_view(final(self).output_path) == Some(path@),
            final(self).documents_path == old(self).documents_path,
            final(self).frequencies_path == old(self).frequencies_path,
            final(self).sizes_path == old(self).sizes_path,
            final(self).terms_path == old(self).terms_path,
            final(self).titles_path == old(self).titles_path,
            final(self).description == old(self).description,
    {
        self.output_path = Some(String::from_str(path));
    }

    /// Checks that every required path is set, reporting the first unset
    /// field, in the order the fields are needed.
    pub fn validate(&self) -> (r: Result<(), ConversionError>)
        ensures
            match r {
                Ok(()) => {
                    &&& self.documents_path is Some
                    &&& self.frequencies_path is Some
                    &&& self.sizes_path is Some
                    &&& self.terms_path is Some
                    &&& self.titles_path is Some
                    &&& self.output_path is Some
                },
                Err(e) => {
                    &&& !(self.documents_path is Some && self.frequencies_path is Some
                        && self.sizes_path is Some && self.terms_path is Some
                        && self.titles_path is Some && self.output_path is Some)
                    &&& match e {
                        ConversionError::MissingField(f) => f@
                            == if self.documents_path is None {
                            "undefined document postings path"@
                        } else if self.frequencies_path is None {
                            "undefined frequency postings path"@
                        } else if self.sizes_path is None {
                            "undefined document sizes path"@
                        } else if self.terms_path is None {
                            "undefined terms path"@
                        } else if self.titles_path is None {
                            "undefined titles path"@
                        } else {
                            "undefined output path"@
                        },
                        _ => false,
                    }
                },
            },
    {
        if self.documents_path.is_none() {
            return Err(ConversionError::MissingField("undefined document postings path"));
        }
        if self.frequencies_path.is_none() {
            return Err(ConversionError::MissingField("undefined frequency postings path"));
        }
        if self.sizes_path.is_none() {
            return Err(ConversionError::MissingField("undefined document sizes path"));
        }
        if self.terms_path.is_none() {
            return Err(ConversionError::MissingField("undefined terms path"));
        }
        if self.titles_path.is_none() {
            return Err(ConversionError::MissingField("undefined titles path"));
        }
        if self.output_path.is_none() {
            return Err(ConversionError::MissingField("undefined output path"));
        }
        Ok(())
    }
}

/// JSONL to CIFF converter configuration.
pub struct JsonlToCiff {
    /// Path of the JSONL input file.
    pub input: Option<String>,
    /// Path of the CIFF output file.
    pub output: Option<String>,
    /// Whether to quantize scores to integers. When false, scores are
    /// assumed to be pre-quantized and are truncated directly.
    pub quantize: bool,
}

impl Default for JsonlToCiff {
    /// An empty configuration: both paths unset, quantization off.
    fn default() -> (r: Self)
        ensures
            r.input is None,
            r.output is None,
            !r.quantize,
    {
        JsonlToCiff { input: None, output: None, quantize: false }
    }
}

impl JsonlToCiff {
    /// Sets the path of the JSONL input file. Required.
    pub fn input_path(&mut self, path: &str)
        ensures
            path_view(final(self).input) == Some(path@),
            final(self).output == old(self).output,
            final(self).quantize == old(self).quantize,
    {
        self.input = Some(String::from_str(path));
    }

    /// Sets the CIFF output file path. Required.
    pub fn output_path(&mut self, path: &str)
        ensures
            path_view(final(self).output) == Some(path@),
            final(self).input == old(self).input,
            final(self).quantize == old(self).quantize,
    {
        self.output = Some(String::from_str(path));
    }

    /// Sets whether scores are quantized to the integer range before
    /// conversion.
    pub fn quantize(&mut self, quantize: bool)
        ensures
            final(self).quantize == quantize,
            final(self).input == old(self).input,
            final(self).output == old(self).output,
    {
        self.quantize = quantize;
    }

    /// Checks that both paths are set, reporting the first unset field.
    pub fn validate(&self) -> (r: Result<(), ConversionError>)
        ensures
            match r {
                Ok(()) => self.input is Some && self.output is Some,
                Err(e) => {
                    &&& !(self.input is Some && self.output is Some)
                    &&& match e {
                        ConversionError::MissingField(f) => f@ == if self.input is None {
                            "No JSON input path was set"@
                        } else {
                            "No CIFF output path was set"@
                        },
                        _ => false,
                    }
                },
            },
    {
        if self.input.is_none() {
            return Err(ConversionError::MissingField("No JSON input path was set"));
        }
        if self.output.is_none() {
            return Err(ConversionError::MissingField("No CIFF output path was set"));
        }
        Ok(())
    }
}

} // verus!
