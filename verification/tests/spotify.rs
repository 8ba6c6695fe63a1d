use deadair::spotify::authorize_url;

#[test]
fn authorize_url_encodes_parameters() {
    let url = authorize_url("client id", "http://127.0.0.1:8080/callback", "a/b");
    assert_eq!(
        url,
        "https://accounts.spotify.com/authorize?response_type=code&client_id=client+id&redirect_uri=http%3A%2F%2F127.0.0.1%3A8080%2Fcallback&scope=user-read-playback-state+user-read-recently-played&state=a%2Fb"
    );
}
