//! What is known of a tool that a server offers.

use vstd::prelude::*;

use crate::json::Json;

verus! {

#[derive(Debug)]
pub struct McpToolInfo {
    pub server_name: String,
    pub tool_name: String,
    pub description: String,
    pub input_schema: Json,
}

} // verus!
