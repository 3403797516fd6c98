use mooncake_table::config::{
    test_iceberg_table_config, test_mooncake_table_config, validate_config, AccessorConfig,
    IcebergCatalogConfig, MooncakeTableConfig, StorageConfig, WalConfig, DEFAULT_BATCH_SIZE,
    DEFAULT_WAL_CAPACITY,
};
use mooncake_table::row::{create_test_schema, ColumnType, IdentityProp, Schema};

fn root_of(storage: &StorageConfig) -> (&str, &Option<String>) {
    match storage {
        StorageConfig::FileSystem { root_directory, atomic_write_dir } => {
            (root_directory.as_str(), atomic_write_dir)
        }
    }
}

#[test]
fn iceberg_config_points_at_the_root() {
    let config = test_iceberg_table_config("/tmp/t", "orders");
    assert_eq!(config.namespace, vec!["default".to_string()]);
    assert_eq!(config.table_name, "orders");
    assert_eq!(root_of(&config.data_accessor_config.storage_config), ("/tmp/t", &None));
    let IcebergCatalogConfig::File { accessor_config } = &config.metadata_accessor_config;
    assert_eq!(root_of(&accessor_config.storage_config), ("/tmp/t", &None));
}

#[test]
fn storage_config_copies_both_directories() {
    let storage = StorageConfig::FileSystem {
        root_directory: "/a".to_string(),
        atomic_write_dir: Some("/b".to_string()),
    };
    let copy = storage.copy();
    assert_eq!(root_of(&copy), ("/a", &Some("/b".to_string())));
    let accessor = AccessorConfig::new_with_storage_config(copy);
    assert_eq!(root_of(&accessor.storage_config), ("/a", &Some("/b".to_string())));
}

#[test]
fn table_config_has_the_defaults() {
    let config = test_mooncake_table_config("/tmp/t");
    assert_eq!(config.batch_size, DEFAULT_BATCH_SIZE);
    assert_eq!(config.batch_size, 2048);
    assert!(matches!(config.row_identity, IdentityProp::NoIdentity));
    assert!(!config.append_only);
    assert_eq!(config.temp_files_directory, "/tmp/t");
    let other = MooncakeTableConfig::new("/x".to_string());
    assert_eq!(other.temp_files_directory, "/x");
    assert_eq!(other.batch_size, 2048);
}

#[test]
fn wal_config_has_the_default_capacity() {
    let config = WalConfig::default_wal_config_local(9, "/wal");
    assert_eq!(config.table_id, 9);
    assert_eq!(config.directory, "/wal");
    assert_eq!(config.capacity, DEFAULT_WAL_CAPACITY);
}

#[test]
fn configuration_is_validated_against_the_schema() {
    let schema = create_test_schema();
    let mut config = test_mooncake_table_config("/tmp/t");
    assert!(validate_config(&schema, &config));
    assert!(!validate_config(&Schema::new(vec![]), &config));
    config.batch_size = 0;
    assert!(!validate_config(&schema, &config));
    config.batch_size = 1;
    config.row_identity = IdentityProp::Keys(vec![0, 1, 2]);
    assert!(validate_config(&schema, &config));
    assert!(validate_config(&schema, &MooncakeTableConfig {
        row_identity: config.row_identity.copy(),
        ..test_mooncake_table_config("/tmp/t")
    }));
    config.row_identity = IdentityProp::Keys(vec![0, 1, 3]);
    assert!(!validate_config(&schema, &config));
    config.row_identity = IdentityProp::Keys(vec![]);
    assert!(!validate_config(&schema, &config));
    config.row_identity = IdentityProp::Keys(vec![1]);
    config.append_only = true;
    assert!(!validate_config(&schema, &config));
    config.row_identity = IdentityProp::NoIdentity;
    assert!(validate_config(&schema, &config));
    assert!(validate_config(&Schema::new(vec![ColumnType::Bool]), &config));
}
