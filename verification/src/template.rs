//! Template registry records: the stored row, the insert row, and the
//! partial update. Timestamps are carried as seconds since the epoch;
//! the database layer that persists these rows is an external
//! collaborator.

use vstd::prelude::*;

verus! {

/// A stored template row.
#[derive(Debug, Clone, PartialEq, Eq)]
pub struct TemplateModel {
    pub id: i32,
    pub author_public_key: Vec<u8>,
    pub template_address: Vec<u8>,
    pub template_name: String,
    pub expected_hash: Vec<u8>,
    pub template_type: String,
    pub compiled_code: Option<Vec<u8>>,
    pub flow_json: Option<String>,
    pub manifest: Option<String>,
    pub url: Option<String>,
    pub status: String,
    /// Seconds since the Unix epoch.
    pub added_at: i64,
}

/// A template row to insert; the id and insertion time are assigned by
/// the store.
#[derive(Debug, Clone, PartialEq, Eq)]
pub struct NewTemplateModel {
    pub author_public_key: Vec<u8>,
    pub template_address: Vec<u8>,
    pub template_name: String,
    pub expected_hash: Vec<u8>,
    pub template_type: String,
    pub compiled_code: Option<Vec<u8>>,
    pub flow_json: Option<String>,
    pub status: String,
    pub manifest: Option<String>,
}

/// A partial update of a template row: absent fields keep their stored
/// value.
#[derive(Debug, Clone, PartialEq, Eq)]
pub struct TemplateUpdateModel {
    pub compiled_code: Option<Vec<u8>>,
    pub flow_json: Option<String>,
    pub manifest: Option<String>,
    pub status: Option<String>,
}

impl TemplateUpdateModel {
    /// Applies the update to a stored row: each present field replaces
    /// the stored one, each absent field leaves it unchanged.
    pub fn apply_to(self, row: TemplateModel) -> (r: TemplateModel)
        ensures
            r.id == row.id,
            r.author_public_key == row.author_public_key,
            r.template_address == row.template_address,
            r.template_name == row.template_name,
            r.expected_hash == row.expected_hash,
            r.template_type == row.template_type,
            r.url == row.url,
            r.added_at == row.added_at,
            r.compiled_code == (if self.compiled_code is Some {
                self.compiled_code
            } else {
                row.compiled_code
            }),
            r.flow_json == (if self.flow_json is Some {
                self.flow_json
            } else {
                row.flow_json
            }),
            r.manifest == (if self.manifest is Some {
                self.manifest
            } else {
                row.manifest
            }),
            r.status == (if self.status is Some {
                self.status.unwrap()
            } else {
                row.status
            }),
    {
        let compiled_code = if self.compiled_code.is_some() {
            self.compiled_code
        } else {
            row.compiled_code
        };
        let flow_json = if self.flow_json.is_some() {
            self.flow_json
        } else {
            row.flow_json
        };
        let manifest = if self.manifest.is_some() {
            self.manifest
        } else {
            row.manifest
        };
        let status = match self.status {
            Some(s) => s,
            None => row.status,
        };
        TemplateModel {
            id: row.id,
            author_public_key: row.author_public_key,
            template_address: row.template_address,
            template_name: row.template_name,
            expected_hash: row.expected_hash,
            template_type: row.template_type,
            compiled_code,
            flow_json,
            manifest,
            url: row.url,
            status,
            added_at: row.added_at,
        }
    }
}

} // verus!
