use wnfs_core::chunker::{ChunkerConfig, ChunkerConfigError, DEFAULT_CHUNKS_SIZE, DEFAULT_CHUNK_SIZE_LIMIT};

#[test]
fn test_chunk_config_from_str() {
    assert_eq!(
        "fixed".parse::<ChunkerConfig>().unwrap(),
        ChunkerConfig::Fixed(DEFAULT_CHUNKS_SIZE)
    );
    assert_eq!(
        "fixed-123".parse::<ChunkerConfig>().unwrap(),
        ChunkerConfig::Fixed(123)
    );

    assert!("fixed-".parse::<ChunkerConfig>().is_err());
    assert!(format!("fixed-{}", DEFAULT_CHUNK_SIZE_LIMIT + 1)
        .parse::<ChunkerConfig>()
        .is_err());
    assert!("foo-123".parse::<ChunkerConfig>().is_err());
    assert!("foo".parse::<ChunkerConfig>().is_err());

    assert_eq!(
        "rabin".parse::<ChunkerConfig>().unwrap(),
        ChunkerConfig::Rabin
    );
}

#[test]
fn chunk_config_errors_name_their_cause() {
    assert_eq!(ChunkerConfig::parse("fixed-"), Err(ChunkerConfigError::InvalidChunkSize));
    assert_eq!(ChunkerConfig::parse("fixed-12a"), Err(ChunkerConfigError::InvalidChunkSize));
    assert_eq!(ChunkerConfig::parse("fixed-99999999999999999999999"), Err(ChunkerConfigError::InvalidChunkSize));
    assert_eq!(ChunkerConfig::parse("fixed-1048577"), Err(ChunkerConfigError::ChunkSizeTooLarge));
    assert_eq!(ChunkerConfig::parse("fixed-1048576"), Ok(ChunkerConfig::Fixed(1048576)));
    assert_eq!(ChunkerConfig::parse("fixed-+7"), Ok(ChunkerConfig::Fixed(7)));
    assert_eq!(ChunkerConfig::parse("fixed+7"), Err(ChunkerConfigError::UnknownChunker));
    assert_eq!(ChunkerConfig::parse(""), Err(ChunkerConfigError::UnknownChunker));
    assert_eq!(ChunkerConfig::parse("rabin-1"), Err(ChunkerConfigError::UnknownChunker));
}
