//! The output choices an operator can ask for.

use vstd::prelude::*;

verus! {

/// How listings are rendered.
#[derive(Debug, Clone)]
pub enum OutputFormat {
    /// Human-readable table.
    Table,
    /// JSON.
    Json,
    /// YAML.
    Yaml,
}

impl OutputFormat {
    /// The name the option is written as on a command line.
    pub fn format_name(&self) -> (r: String)
        ensures
            self is Table ==> r@ == "table"@,
            self is Json ==> r@ == "json"@,
            self is Yaml ==> r@ == "yaml"@,
    {
        match self {
            OutputFormat::Table => "table".to_owned(),
            OutputFormat::Json => "json".to_owned(),
            OutputFormat::Yaml => "yaml".to_owned(),
        }
    }
}

/// How the topology drawing is emitted.
#[derive(Debug, Clone)]
pub enum GraphFormat {
    /// The Graphviz drawing language.
    Dot,
    /// Scalable vector graphics.
    Svg,
}

} // verus!
