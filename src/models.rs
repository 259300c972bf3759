use vstd::prelude::*;

use crate::folders::FileType;
use crate::xid::Xid;

verus! {

/// A vault: a named root directory whose contents are indexed.
pub struct Vault {
    pub id: Xid,
    pub name: String,
    pub provider: String,
    /// The vault's root directory.
    pub path: String,
}

/// A user account. Times are in seconds since the Unix epoch.
pub struct User {
    pub id: Xid,
    pub created_at: i64,
    pub last_login_at: Option<i64>,
    pub name: String,
    pub email: String,
}

/// A way for a user to sign in, with its provider's data as JSON text.
pub struct UserIdentity {
    pub id: Xid,
    pub provider: String,
    pub data: String,
}

/// A stored refresh token: only its digest is kept. Times are in seconds since the
/// Unix epoch.
pub struct UserRefreshToken {
    pub id: Xid,
    pub user_id: Xid,
    pub token_hash: Vec<u8>,
    pub created_at: i64,
    pub last_used_at: Option<i64>,
    pub user_agent: Option<String>,
    pub remote_address: String,
}

/// Membership of a user in a vault.
pub struct UserVaultLink {
    pub user_id: Xid,
    pub vault_id: Xid,
    pub is_admin: bool,
}

/// One indexed filesystem entry of a vault.
pub struct VaultFile {
    pub id: Xid,
    pub vault_id: Xid,
    /// Absolute path of the entry: its key within the vault.
    pub path_id: String,
    /// Final component of the path.
    pub name: String,
    pub file_type: FileType,
    /// The folder record whose path is this entry's parent directory; `None` for a
    /// direct child of the vault root.
    pub parent_id: Option<Xid>,
    /// Creation time, in seconds since the Unix epoch, where known.
    pub created_at: Option<i64>,
    /// Size in bytes, for files whose metadata could be read.
    pub size: Option<i64>,
}

/// A record as plain mathematical values.
pub struct RecordView {
    pub id: Seq<u8>,
    pub vault_id: Seq<u8>,
    pub path: Seq<char>,
    pub name: Seq<char>,
    pub kind: FileType,
    pub parent: Option<Seq<u8>>,
    pub created_at: Option<i64>,
    pub size: Option<i64>,
}

/// The bytes of an optional identifier.
pub open spec fn id_option_view(x: Option<Xid>) -> Option<Seq<u8>> {
    match x {
        Some(i) => Some(i@),
        None => None,
    }
}

impl View for VaultFile {
    type V = RecordView;

    open spec fn view(&self) -> RecordView {
        RecordView {
            id: self.id@,
            vault_id: self.vault_id@,
            path: self.path_id@,
            name: self.name@,
            kind: self.file_type,
            parent: id_option_view(self.parent_id),
            created_at: self.created_at,
            size: self.size,
        }
    }
}

impl VaultFile {
    /// A copy of this record.
    pub fn duplicate(&self) -> (r: VaultFile)
        ensures
            r@ == self@,
    {
        VaultFile {
            id: self.id,
            vault_id: self.vault_id,
            path_id: self.path_id.clone(),
            name: self.name.clone(),
            file_type: self.file_type,
            parent_id: self.parent_id,
            created_at: self.created_at,
            size: self.size,
        }
    }
}

/// What the filesystem reports of an existing entry.
#[derive(Debug, Clone, Copy, PartialEq, Eq, Structural)]
pub struct EntryMeta {
    pub file_type: FileType,
    pub created_at: Option<i64>,
    pub size: Option<i64>,
}

} // verus!
