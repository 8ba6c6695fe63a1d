use deadair::models::{AlbumRef, ArtistRef, TokenData, TrackItem};

#[test]
fn token_expiry() {
    let token = TokenData {
        access_token: "x".into(),
        token_type: "Bearer".into(),
        expires_in: 3600,
        refresh_token: None,
        scope: None,
        created_at: chrono::Utc::now().timestamp() - 7200,
    };
    assert!(token.is_expired());

    let fresh = TokenData {
        created_at: chrono::Utc::now().timestamp(),
        ..token
    };
    assert!(!fresh.is_expired());
}

#[test]
fn token_expires_at_the_boundary() {
    let token = TokenData {
        access_token: "x".into(),
        token_type: "Bearer".into(),
        expires_in: 3600,
        refresh_token: None,
        scope: None,
        created_at: 1000,
    };
    assert!(!token.is_expired_at(4599));
    assert!(token.is_expired_at(4600));
}

fn track(names: &[&str]) -> TrackItem {
    TrackItem {
        id: "3U0NiT".into(),
        name: "Here I Am".into(),
        duration_ms: 239296,
        artists: names
            .iter()
            .map(|n| ArtistRef { id: "x".into(), name: n.to_string() })
            .collect(),
        album: AlbumRef { id: "5O9".into(), name: "Here I Am".into() },
        uri: "spotify:track:3U0NiT".into(),
    }
}

#[test]
fn artist_names_are_joined() {
    assert_eq!(track(&["LL Burns"]).artist_names(), "LL Burns");
    assert_eq!(track(&["A", "B", "C"]).artist_names(), "A, B, C");
    assert_eq!(track(&[]).artist_names(), "");
}
