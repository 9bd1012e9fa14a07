//! The choices that a command line hands to the engine, as plain values.

use vstd::prelude::*;

verus! {

/// How reported data is rendered.
#[derive(Clone, Copy, Debug, PartialEq, Eq, Hash, Structural)]
pub enum ExportDataFormat {
    Readable,
    JSON,
    XML,
    TOML,
}

/// The label of a format, as shown to the user.
pub open spec fn format_label(format: ExportDataFormat) -> Seq<char> {
    match format {
        ExportDataFormat::Readable => "Readable"@,
        ExportDataFormat::JSON => "JSON"@,
        ExportDataFormat::XML => "XML"@,
        ExportDataFormat::TOML => "TOML"@,
    }
}

impl Default for ExportDataFormat {
    fn default() -> (format: Self)
        ensures
            format == ExportDataFormat::Readable,
    {
        ExportDataFormat::Readable
    }
}

impl ExportDataFormat {
    /// The label of the format.
    pub fn to_string(&self) -> (label: String)
        ensures
            label@ == format_label(*self),
    {
        match self {
            ExportDataFormat::Readable => "Readable".to_owned(),
            ExportDataFormat::JSON => "JSON".to_owned(),
            ExportDataFormat::XML => "XML".to_owned(),
            ExportDataFormat::TOML => "TOML".to_owned(),
        }
    }
}

/// What a report on a package is about.
#[derive(Clone, Copy, Debug, PartialEq, Eq, Structural)]
pub enum InformationOperation {
    /// The package as a whole.
    Overview { detailed: bool },
    /// The applications of the package.
    Applications { list_applications: bool, list_aw: bool },
    /// The datafeeds of the package.
    Datafeeds { list_all: bool, list_detailed: bool, format: ExportDataFormat },
    Notifications,
    Solutions,
    Dashboards,
    Workspaces,
    DataDrivenEvents,
    Levels,
}

} // verus!
