//! Attachments: files beside memories.

use vstd::prelude::*;

use crate::ids::{uuid_notation, uuid_text};
use crate::json;
use crate::json::{Json, JsonView};
use crate::text;
use crate::text::{begins, opt_view};

verus! {

broadcast use vstd::string::group_string_axioms;

/// What is known of an attachment.
#[derive(Debug)]
pub struct AttachmentMeta {
    pub id: u128,
    pub tenant_id: String,
    pub memory_id: Option<u128>,
    pub content_type: String,
    pub filename: Option<String>,
    pub size: u64,
    /// Where its bytes are kept.
    pub storage_key: String,
    pub created_at: i128,
}

/// Where the bytes of an attachment are kept: apart for each tenant.
pub open spec fn storage_key(tenant: Seq<char>, id: u128) -> Seq<char> {
    "attachments/"@ + tenant + "/"@ + uuid_notation(id)
}

/// Is this an image?
pub open spec fn image(content_type: Seq<char>) -> bool {
    begins(content_type, "image/"@)
}

pub fn is_image(content_type: &str) -> (r: bool)
    ensures
        r == image(content_type@),
{
    text::str_starts(content_type, "image/")
}

/// Records an attachment.
pub fn attachment_put(
    id: u128,
    tenant: &str,
    memory_id: Option<u128>,
    content_type: &str,
    filename: Option<String>,
    size: u64,
    now: i128,
) -> (r: AttachmentMeta)
    ensures
        r.id == id,
        r.tenant_id@ == tenant@,
        r.memory_id == memory_id,
        r.content_type@ == content_type@,
        opt_view(r.filename) == opt_view(filename),
        r.size == size,
        r.storage_key@ == storage_key(tenant@, id),
        r.created_at == now,
{
    AttachmentMeta {
        id,
        tenant_id: tenant.to_owned(),
        memory_id,
        content_type: content_type.to_owned(),
        filename,
        size,
        storage_key: text::cat4("attachments/", tenant, "/", uuid_text(id).as_str()),
        created_at: now,
    }
}

/// What an image is found by, beside its vector: its name, and its tenant.
pub fn image_entry(meta: &AttachmentMeta) -> (r: (String, Json))
    ensures
        r.0@ == match opt_view(meta.filename) {
            Some(f) => f,
            None => ""@,
        },
        r.1@ == JsonView::Object(
            seq![
                ("tenant_id"@, JsonView::Str(meta.tenant_id@)),
                ("attachment"@, JsonView::Bool(true)),
            ],
        ),
{
    let content = match &meta.filename {
        Some(f) => f.clone(),
        None => "".to_owned(),
    };
    let metadata = json::object2(
        "tenant_id",
        json::string(meta.tenant_id.as_str()),
        "attachment",
        Json::Bool(true),
    );
    (content, metadata)
}

} // verus!
