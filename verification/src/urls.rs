use vstd::prelude::*;

use crate::digits::{dec_digits, u64_to_string};
use crate::Config;

verus! {

/// One remote operation of the file-storage service. Each maps to one
/// endpoint path; the reconciler and the index store never see this mapping.
pub enum EndPoint {
    GetDigest,
    GetZip,
    ListFolder,
    Oauth2Token,
    UserInfo,
}

/// The method name each operation is reached under.
pub open spec fn spec_method_name(e: EndPoint) -> Seq<char> {
    match e {
        EndPoint::GetDigest => "getdigest"@,
        EndPoint::GetZip => "getzip"@,
        EndPoint::ListFolder => "listfolder"@,
        EndPoint::Oauth2Token => "oauth2_token"@,
        EndPoint::UserInfo => "userinfo"@,
    }
}

/// The full URL of an operation.
pub open spec fn spec_url(e: EndPoint) -> Seq<char> {
    "https://eapi.pcloud.com"@ + "/"@ + spec_method_name(e)
}

/// The comma-separated decimal file identifiers, in order.
pub open spec fn spec_joined_ids(ids: Seq<u64>) -> Seq<char>
    decreases ids.len(),
{
    if ids.len() == 0 {
        Seq::empty()
    } else if ids.len() == 1 {
        dec_digits(ids[0] as nat)
    } else {
        spec_joined_ids(ids.drop_last()) + ","@ + dec_digits(ids.last() as nat)
    }
}

impl EndPoint {
    fn method_name(&self) -> (r: &'static str)
        ensures
            r@ == spec_method_name(*self),
    {
        match self {
            EndPoint::GetDigest => "getdigest",
            EndPoint::GetZip => "getzip",
            EndPoint::ListFolder => "listfolder",
            EndPoint::Oauth2Token => "oauth2_token",
            EndPoint::UserInfo => "userinfo",
        }
    }

    /// The plain URL of this operation.
    pub fn get_url(&self) -> (r: String)
        ensures
            r@ == spec_url(*self),
    {
        let mut url = String::from_str("https://eapi.pcloud.com");
        url.append("/");
        url.append(self.method_name());
        url
    }

    /// The URL of this operation carrying the configured OAuth token.
    pub fn get_url_with_oauth_token(&self, config: &Config) -> (r: String)
        ensures
            r@ == spec_url(*self) + "?access_token="@ + config.pcloud_oath_token@,
    {
        let mut url = self.get_url();
        url.append("?access_token=");
        url.append(config.pcloud_oath_token.as_str());
        url
    }
}

/// The folder-listing URL for one folder, asking only for each file's
/// identifier and name.
pub fn make_listfolder_url(config: &Config, folder_id: u64) -> (r: String)
    ensures
        r@ == spec_url(EndPoint::ListFolder) + "?access_token="@ + config.pcloud_oath_token@
            + "&folderid="@ + dec_digits(folder_id as nat) + "&filterfilemeta=fileid,name"@,
{
    let mut url = EndPoint::ListFolder.get_url_with_oauth_token(config);
    url.append("&folderid=");
    let ds = u64_to_string(folder_id);
    url.append(ds.as_str());
    url.append("&filterfilemeta=fileid,name");
    url
}

/// The bulk-archive URL for the given file identifiers, under a short-lived
/// download token.
pub fn make_getzip_url(file_ids: &Vec<u64>, token: &str) -> (r: String)
    ensures
        r@ == spec_url(EndPoint::GetZip) + "?auth="@ + token@ + "&fileids="@ + spec_joined_ids(
            file_ids@,
        ),
{
    let mut url = EndPoint::GetZip.get_url();
    url.append("?auth=");
    url.append(token);
    url.append("&fileids=");
    let ghost prefix = url@;
    let mut j: usize = 0;
    while j < file_ids.len()
        invariant
            j <= file_ids@.len(),
            url@ == prefix + spec_joined_ids(file_ids@.take(j as int)),
        decreases file_ids.len() - j,
    {
        if j > 0 {
            url.append(",");
        }
        let ds = u64_to_string(file_ids[j]);
        url.append(ds.as_str());
        proof {
            let taken = file_ids@.take(j as int);
            let grown = file_ids@.take(j + 1int);
            assert(grown.drop_last() =~= taken);
            assert(grown.last() == file_ids@[j as int]);
            if j == 0 {
                assert(grown.len() == 1);
                assert(grown[0] == file_ids@[j as int]);
                assert(url@ =~= prefix + spec_joined_ids(grown));
            } else {
                assert(url@ =~= prefix + spec_joined_ids(grown));
            }
        }
        j += 1;
    }
    assert(file_ids@.take(file_ids@.len() as int) =~= file_ids@);
    url
}

} // verus!
