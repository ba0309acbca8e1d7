use photoframe::{make_auth_url, make_getzip_url, make_listfolder_url, make_password_digest, Config, EndPoint};

fn config() -> Config {
    Config {
        index_file: "/var/lib/photoframe/index.json".to_string(),
        photo_dir: "/var/lib/photoframe/photos".to_string(),
        pcloud_username: "alice".to_string(),
        pcloud_password: "secret".to_string(),
        pcloud_oath_token: "tok123".to_string(),
    }
}

#[test]
fn each_endpoint_has_its_url() {
    assert_eq!(EndPoint::GetDigest.get_url(), "https://eapi.pcloud.com/getdigest");
    assert_eq!(EndPoint::GetZip.get_url(), "https://eapi.pcloud.com/getzip");
    assert_eq!(EndPoint::ListFolder.get_url(), "https://eapi.pcloud.com/listfolder");
    assert_eq!(EndPoint::Oauth2Token.get_url(), "https://eapi.pcloud.com/oauth2_token");
    assert_eq!(EndPoint::UserInfo.get_url(), "https://eapi.pcloud.com/userinfo");
}

#[test]
fn oauth_url_carries_the_configured_token() {
    let url = EndPoint::ListFolder.get_url_with_oauth_token(&config());
    assert_eq!(url, "https://eapi.pcloud.com/listfolder?access_token=tok123");
}

#[test]
fn listfolder_url_names_folder_and_fields() {
    let url = make_listfolder_url(&config(), 7565553876);
    assert_eq!(
        url,
        "https://eapi.pcloud.com/listfolder?access_token=tok123&folderid=7565553876&filterfilemeta=fileid,name"
    );
}

#[test]
fn getzip_url_joins_the_file_ids() {
    let url = make_getzip_url(&vec![4, 10, 7], "tk");
    assert_eq!(url, "https://eapi.pcloud.com/getzip?auth=tk&fileids=4,10,7");
}

#[test]
fn getzip_url_with_one_id_has_no_comma() {
    let url = make_getzip_url(&vec![42], "tk");
    assert_eq!(url, "https://eapi.pcloud.com/getzip?auth=tk&fileids=42");
}

#[test]
fn getzip_url_with_no_ids_is_still_well_formed() {
    let url = make_getzip_url(&vec![], "tk");
    assert_eq!(url, "https://eapi.pcloud.com/getzip?auth=tk&fileids=");
}

#[test]
fn password_digest_chains_the_hashes() {
    // sha1("alice") = 522b276a356bdf39013dfabea2cd43e141ecc9e8, and
    // sha1("secret" + that + "digest123") is the expected value.
    let got = make_password_digest("alice", "secret", "digest123");
    assert_eq!(got, "9ec7cf92f4a9302d4b2b855ab42cda29f6e613fc");
}

#[test]
fn auth_url_carries_name_digest_and_password_digest() {
    let url = make_auth_url(&config(), "digest123");
    assert_eq!(
        url,
        "https://eapi.pcloud.com/userinfo?getauth=1&authexpire=63072000&username=alice&digest=digest123&passworddigest=9ec7cf92f4a9302d4b2b855ab42cda29f6e613fc"
    );
}
