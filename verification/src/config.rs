//! The configuration of a table: where it stores its files, how it names
//! itself in the catalog, and how it batches and identifies rows.

use crate::row::{ColumnType, Identity, IdentityProp, Schema};
use vstd::prelude::*;
use vstd::string::*;

verus! {

/// Where files are stored.
#[derive(Debug)]
pub enum StorageConfig {
    /// In a directory of the local file system. Files are written in place,
    /// or, where `atomic_write_dir` is given, there first and then moved.
    FileSystem { root_directory: String, atomic_write_dir: Option<String> },
}

impl StorageConfig {
    /// The directory that the files are stored in.
    pub open spec fn root(&self) -> Seq<char> {
        match *self {
            StorageConfig::FileSystem { root_directory, atomic_write_dir } => root_directory@,
        }
    }

    /// The staging directory of atomic writes, if there is one.
    pub open spec fn staging(&self) -> Option<Seq<char>> {
        match *self {
            StorageConfig::FileSystem { root_directory, atomic_write_dir } => match atomic_write_dir {
                Some(dir) => Some(dir@),
                None => None,
            },
        }
    }

    /// A copy of this configuration.
    pub fn copy(&self) -> (out: Self)
        ensures
            out.root() == self.root(),
            out.staging() == self.staging(),
    {
        match self {
            StorageConfig::FileSystem { root_directory, atomic_write_dir } => {
                let staging = match atomic_write_dir {
                    Some(dir) => Some(dir.clone()),
                    None => None,
                };
                StorageConfig::FileSystem {
                    root_directory: root_directory.clone(),
                    atomic_write_dir: staging,
                }
            },
        }
    }
}

/// A storage configuration as the contracts see it: the directory that the
/// files are stored in, and the staging directory of atomic writes, if there
/// is one.
pub struct StorageView {
    pub root: Seq<char>,
    pub staging: Option<Seq<char>>,
}

impl View for StorageConfig {
    type V = StorageView;

    open spec fn view(&self) -> StorageView {
        StorageView { root: self.root(), staging: self.staging() }
    }
}

/// How a storage accessor reaches its files.
#[derive(Debug)]
pub struct AccessorConfig {
    pub storage_config: StorageConfig,
}

impl AccessorConfig {
    /// The accessor configuration for the given storage.
    pub fn new_with_storage_config(storage_config: StorageConfig) -> (config: Self)
        ensures
            config.storage_config == storage_config,
    {
        AccessorConfig { storage_config }
    }
}

/// Where the catalog of the table format keeps its metadata.
#[derive(Debug)]
pub enum IcebergCatalogConfig {
    /// In files, reached through the given accessor.
    File { accessor_config: AccessorConfig },
}

impl IcebergCatalogConfig {
    /// The storage that holds the metadata.
    pub open spec fn storage(&self) -> StorageConfig {
        match *self {
            IcebergCatalogConfig::File { accessor_config } => accessor_config.storage_config,
        }
    }
}

/// How a table is known to the table format: its namespace, its name, and the
/// accessors of its data and of its metadata.
#[derive(Debug)]
pub struct IcebergTableConfig {
    pub namespace: Vec<String>,
    pub table_name: String,
    pub data_accessor_config: AccessorConfig,
    pub metadata_accessor_config: IcebergCatalogConfig,
}

/// A table-format configuration as the contracts see it: the namespace, the
/// name of the table, and the storage of its data and of its metadata.
pub struct FormatView {
    pub namespace: Seq<Seq<char>>,
    pub table_name: Seq<char>,
    pub data: StorageView,
    pub metadata: StorageView,
}

impl View for IcebergTableConfig {
    type V = FormatView;

    open spec fn view(&self) -> FormatView {
        FormatView {
            namespace: Seq::new(self.namespace@.len(), |i: int| self.namespace@[i]@),
            table_name: self.table_name@,
            data: self.data_accessor_config.storage_config@,
            metadata: self.metadata_accessor_config.storage()@,
        }
    }
}

/// The table-format configuration of a table named `table_name` that keeps
/// both its data and its metadata in the directory `root`, written in place,
/// in the namespace `default`.
pub open spec fn sample_format(root: Seq<char>, table_name: Seq<char>) -> FormatView {
    FormatView {
        namespace: seq!["default"@],
        table_name,
        data: StorageView { root, staging: None },
        metadata: StorageView { root, staging: None },
    }
}

/// The number of rows per batch where none is configured.
pub const DEFAULT_BATCH_SIZE: usize = 2048;

/// How a table batches and identifies its rows.
#[derive(Debug)]
pub struct MooncakeTableConfig {
    /// The number of rows at which a batch is sealed.
    pub batch_size: usize,
    /// How a row is told apart from the others.
    pub row_identity: IdentityProp,
    /// Whether the table only grows: no row is ever deleted.
    pub append_only: bool,
    /// The directory of temporary files.
    pub temp_files_directory: String,
}

impl MooncakeTableConfig {
    /// The default configuration with the given directory of temporary files:
    /// batches of [`DEFAULT_BATCH_SIZE`] rows, no row identity, deletes
    /// allowed.
    pub fn new(temp_files_directory: String) -> (config: Self)
        ensures
            config.batch_size == DEFAULT_BATCH_SIZE,
            config.row_identity@ == Identity::NoIdentity,
            !config.append_only,
            config.temp_files_directory@ == temp_files_directory@,
    {
        MooncakeTableConfig {
            batch_size: DEFAULT_BATCH_SIZE,
            row_identity: IdentityProp::NoIdentity,
            append_only: false,
            temp_files_directory,
        }
    }
}

/// Whether a schema and a configuration can make a table: the schema has a
/// column, a batch holds at least one row, every column of the row identity is
/// a column of the schema and there is at least one, and a table that only
/// grows has no row identity.
pub open spec fn config_valid(schema: Seq<ColumnType>, batch_size: nat, identity: Identity, append_only: bool) -> bool {
    &&& schema.len() > 0
    &&& batch_size >= 1
    &&& identity matches Identity::Keys(keys) ==> {
        &&& keys.len() > 0
        &&& forall|i: int| 0 <= i < keys.len() ==> (#[trigger] keys[i]) < schema.len()
        &&& !append_only
    }
}

/// Whether `schema` and `config` can make a table.
#[verifier::loop_isolation(false)]
pub fn validate_config(schema: &Schema, config: &MooncakeTableConfig) -> (ok: bool)
    ensures
        ok == config_valid(
            schema@,
            config.batch_size as nat,
            config.row_identity@,
            config.append_only,
        ),
{
    if schema.columns.len() == 0 || config.batch_size == 0 {
        return false;
    }
    match &config.row_identity {
        IdentityProp::NoIdentity => true,
        IdentityProp::Keys(keys) => {
            if keys.len() == 0 || config.append_only {
                return false;
            }
            let mut i: usize = 0;
            while i < keys.len()
                invariant
                    i <= keys.len(),
                    forall|k: int| 0 <= k < i ==> (#[trigger] keys@[k]) < schema@.len(),
                decreases keys.len() - i,
            {
                if keys[i] >= schema.columns.len() {
                    assert(!(keys@[i as int] < schema@.len()));
                    return false;
                }
                i += 1;
            }
            true
        },
    }
}

/// How the write-ahead log of a table is kept.
#[derive(Debug)]
pub struct WalConfig {
    /// The table that the log belongs to.
    pub table_id: u32,
    /// The directory that holds the log.
    pub directory: String,
    /// The number of bytes that the log may hold.
    pub capacity: usize,
}

/// The number of bytes that a log may hold where none is configured.
pub const DEFAULT_WAL_CAPACITY: usize = 0x4000_0000;

impl WalConfig {
    /// The configuration of a log of default capacity kept under `directory`.
    pub fn default_wal_config_local(table_id: u32, directory: &str) -> (config: Self)
        ensures
            config.table_id == table_id,
            config.directory@ == directory@,
            config.capacity == DEFAULT_WAL_CAPACITY,
    {
        WalConfig {
            table_id,
            directory: String::from_str(directory),
            capacity: DEFAULT_WAL_CAPACITY,
        }
    }
}

/// The table-format configuration of a table named `table_name` that keeps
/// both its data and its metadata in the directory `root`, written in place,
/// in the namespace `default`.
pub fn test_iceberg_table_config(root: &str, table_name: &str) -> (config: IcebergTableConfig)
    ensures
        config@ == sample_format(root@, table_name@),
{
    let storage_config = StorageConfig::FileSystem {
        root_directory: String::from_str(root),
        atomic_write_dir: None,
    };
    let mut namespace: Vec<String> = Vec::new();
    namespace.push(String::from_str("default"));
    let config = IcebergTableConfig {
        namespace,
        table_name: String::from_str(table_name),
        data_accessor_config: AccessorConfig::new_with_storage_config(storage_config.copy()),
        metadata_accessor_config: IcebergCatalogConfig::File {
            accessor_config: AccessorConfig::new_with_storage_config(storage_config),
        },
    };
    assert(config@.namespace =~= seq!["default"@]);
    config
}

/// The default table configuration with `temp_dir` as its directory of
/// temporary files.
pub fn test_mooncake_table_config(temp_dir: &str) -> (config: MooncakeTableConfig)
    ensures
        config.batch_size == DEFAULT_BATCH_SIZE,
        config.row_identity@ == Identity::NoIdentity,
        !config.append_only,
        config.temp_files_directory@ == temp_dir@,
{
    MooncakeTableConfig::new(String::from_str(temp_dir))
}

} // verus!
