use minmax::config::{ConfigError, PlayerConfig};

#[test]
fn config_names() {
    assert_eq!(PlayerConfig::parse("human"), Ok(PlayerConfig::Human));
    assert_eq!(PlayerConfig::parse("h"), Ok(PlayerConfig::Human));
    for name in ["perfect", "p", "ai", "minmax"] {
        assert_eq!(PlayerConfig::parse(name), Ok(PlayerConfig::Perfect { depth: None }));
    }
    assert_eq!(PlayerConfig::parse("robot"), Err(ConfigError::InvalidPlayer));
    assert_eq!(PlayerConfig::parse(""), Err(ConfigError::InvalidPlayer));
    assert_eq!(PlayerConfig::parse("Human"), Err(ConfigError::InvalidPlayer));
    assert_eq!(PlayerConfig::parse("humans"), Err(ConfigError::InvalidPlayer));
}

#[test]
fn config_depths() {
    assert_eq!(
        PlayerConfig::parse("perfect:7"),
        Ok(PlayerConfig::Perfect { depth: Some(7) })
    );
    assert_eq!(
        PlayerConfig::parse("ai:+12"),
        Ok(PlayerConfig::Perfect { depth: Some(12) })
    );
    assert_eq!(
        PlayerConfig::parse("p:5:extra"),
        Ok(PlayerConfig::Perfect { depth: Some(5) })
    );
    assert_eq!(
        PlayerConfig::parse("minmax:18446744073709551615"),
        Ok(PlayerConfig::Perfect { depth: Some(usize::MAX) })
    );
    assert_eq!(PlayerConfig::parse("human:3"), Ok(PlayerConfig::Human));
    assert_eq!(PlayerConfig::parse("p:"), Err(ConfigError::InvalidDepth));
    assert_eq!(PlayerConfig::parse("p:+"), Err(ConfigError::InvalidDepth));
    assert_eq!(PlayerConfig::parse("p:-3"), Err(ConfigError::InvalidDepth));
    assert_eq!(PlayerConfig::parse("p:3x"), Err(ConfigError::InvalidDepth));
    assert_eq!(
        PlayerConfig::parse("p:18446744073709551616"),
        Err(ConfigError::InvalidDepth)
    );
    assert_eq!(PlayerConfig::parse("x:3"), Err(ConfigError::InvalidPlayer));
}
