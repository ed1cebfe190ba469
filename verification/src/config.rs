//! How a store is configured.
use vstd::prelude::*;

verus! {

/// Where the objects of a remote store lie, and how to reach them.
#[derive(Debug)]
pub struct StoreOssConfig {
    /// The directory that stands for the root of the bucket.
    pub landed_dir: String,
    pub access_key: String,
    pub secret_key: String,
    /// The endpoints to try in turn, separated by commas.
    pub endpoints: String,
    pub region: String,
    pub bucket_name: String,
}

/// What a remote configuration says.
#[verifier::ext_equal]
pub struct OssConfigView {
    pub landed_dir: Seq<char>,
    pub access_key: Seq<char>,
    pub secret_key: Seq<char>,
    pub endpoints: Seq<char>,
    pub region: Seq<char>,
    pub bucket_name: Seq<char>,
}

impl OssConfigView {
    /// The configuration of a store that is not remote.
    pub open spec fn empty() -> Self {
        OssConfigView {
            landed_dir: Seq::empty(),
            access_key: Seq::empty(),
            secret_key: Seq::empty(),
            endpoints: Seq::empty(),
            region: Seq::empty(),
            bucket_name: Seq::empty(),
        }
    }
}

impl View for StoreOssConfig {
    type V = OssConfigView;

    open spec fn view(&self) -> OssConfigView {
        OssConfigView {
            landed_dir: self.landed_dir@,
            access_key: self.access_key@,
            secret_key: self.secret_key@,
            endpoints: self.endpoints@,
            region: self.region@,
            bucket_name: self.bucket_name@,
        }
    }
}

impl Default for StoreOssConfig {
    fn default() -> (r: Self)
        ensures
            r@ == OssConfigView::empty(),
    {
        StoreOssConfig {
            landed_dir: String::new(),
            access_key: String::new(),
            secret_key: String::new(),
            endpoints: String::new(),
            region: String::new(),
            bucket_name: String::new(),
        }
    }
}

impl Clone for StoreOssConfig {
    fn clone(&self) -> (r: Self)
        ensures
            r@ == self@,
    {
        StoreOssConfig {
            landed_dir: self.landed_dir.clone(),
            access_key: self.access_key.clone(),
            secret_key: self.secret_key.clone(),
            endpoints: self.endpoints.clone(),
            region: self.region.clone(),
            bucket_name: self.bucket_name.clone(),
        }
    }
}

/// The configuration a store is created or opened with.
#[derive(Debug)]
pub struct StoreConfig {
    /// Where the data file of the store lies.
    pub data_path: String,
    /// The number of rows above the base that are not kept.
    pub rows_to_discard: usize,
    /// Whether the data lie in a remote object store.
    pub oss: bool,
    pub oss_config: StoreOssConfig,
}

/// What a configuration says.
#[verifier::ext_equal]
pub struct ConfigView {
    pub data_path: Seq<char>,
    pub rows_to_discard: nat,
    pub oss: bool,
    pub oss_config: OssConfigView,
}

impl View for StoreConfig {
    type V = ConfigView;

    open spec fn view(&self) -> ConfigView {
        ConfigView {
            data_path: self.data_path@,
            rows_to_discard: self.rows_to_discard as nat,
            oss: self.oss,
            oss_config: self.oss_config@,
        }
    }
}

/// What a store knows of the reader that serves its base row.
#[derive(Debug)]
pub struct ReaderInfo {
    /// Where the base row begins in the reader's data.
    pub offset: usize,
    /// The file that the reader reads.
    pub data_path: String,
}

/// What a reader's description says.
#[verifier::ext_equal]
pub struct ReaderView {
    pub offset: nat,
    pub data_path: Seq<char>,
}

impl View for ReaderInfo {
    type V = ReaderView;

    open spec fn view(&self) -> ReaderView {
        ReaderView { offset: self.offset as nat, data_path: self.data_path@ }
    }
}

} // verus!
