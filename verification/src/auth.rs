use vstd::prelude::*;

use crate::urls::{spec_url, EndPoint};
use crate::Config;
use sha1::{Digest, Sha1};

verus! {

/// The lower-case hexadecimal SHA-1 digest of a text. The digest is a
/// function of the text alone; its value is not spelled out here, only
/// named, and the remote service computes the same function on its side.
pub uninterp spec fn sha1_hex_of(s: Seq<char>) -> Seq<char>;

/// Relies on the sha1 crate (`Sha1::new`, `Digest::update`,
/// `Digest::finalize`): the returned text is the lower-case hexadecimal
/// SHA-1 digest of the input, a function of the input alone.
#[verifier::external_body]
fn make_sha1(x: &str) -> (r: String)
    ensures
        r@ == sha1_hex_of(x@),
{
    let mut hasher = Sha1::new();
    hasher.update(x.as_bytes());
    let result = hasher.finalize();
    let mut out = String::new();
    for b in result.iter() {
        out.push_str(&format!("{:02x}", b));
    }
    out
}

/// The password digest the authentication handshake asks for: the SHA-1 of
/// the password, the SHA-1 of the user name, and the fresh server digest,
/// run through SHA-1 together.
pub fn make_password_digest(username: &str, password: &str, digest: &str) -> (r: String)
    ensures
        r@ == sha1_hex_of(password@ + sha1_hex_of(username@) + digest@),
{
    let username_sha1 = make_sha1(username);
    let mut buf = String::from_str(password);
    buf.append(username_sha1.as_str());
    buf.append(digest);
    make_sha1(buf.as_str())
}

/// The URL that asks for an auth token, given the fresh server digest: user
/// name, the digest, and the derived password digest, on the user-info
/// operation.
pub fn make_auth_url(config: &Config, digest: &str) -> (r: String)
    ensures
        r@ == spec_url(EndPoint::UserInfo) + "?getauth=1&authexpire=63072000&username="@
            + config.pcloud_username@ + "&digest="@ + digest@ + "&passworddigest="@ + sha1_hex_of(
            config.pcloud_password@ + sha1_hex_of(config.pcloud_username@) + digest@,
        ),
{
    let password_digest = make_password_digest(
        config.pcloud_username.as_str(),
        config.pcloud_password.as_str(),
        digest,
    );
    let mut url = EndPoint::UserInfo.get_url();
    url.append("?getauth=1&authexpire=63072000&username=");
    url.append(config.pcloud_username.as_str());
    url.append("&digest=");
    url.append(digest);
    url.append("&passworddigest=");
    url.append(password_digest.as_str());
    url
}

} // verus!
