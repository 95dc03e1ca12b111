use vstd::prelude::*;
use vstd::utf8::encode_utf8;

verus! {

/// Immutable, process-lifetime configuration for the static file service.
///
/// `path` is the URL prefix (mount path) under which the tree rooted at
/// `directory` is exposed.  `index_file` names the file served when a
/// directory itself is requested; an empty name disables the fallback.
/// The remaining flags switch individual response features off or on.
pub struct ServiceOptions {
    pub path: String,
    pub directory: String,
    pub index_file: String,
    pub disable_etag: bool,
    pub disable_last_modified: bool,
    pub disable_content_disposition: bool,
    pub redirect_to_slash_directory: bool,
    pub show_files_listing: bool,
}

impl ServiceOptions {
    /// The mount path as the byte sequence it occupies in a request line.
    pub open spec fn mount_bytes(&self) -> Seq<u8> {
        encode_utf8(self.path@)
    }

    /// The root directory as a byte sequence.
    pub open spec fn root_bytes(&self) -> Seq<u8> {
        encode_utf8(self.directory@)
    }

    /// The index file name as a byte sequence.
    pub open spec fn index_bytes(&self) -> Seq<u8> {
        encode_utf8(self.index_file@)
    }

    #[allow(clippy::too_many_arguments)]
    pub fn new(
        path: String,
        directory: String,
        index_file: String,
        disable_etag: bool,
        disable_last_modified: bool,
        disable_content_disposition: bool,
        redirect_to_slash_directory: bool,
        show_files_listing: bool,
    ) -> (r: Self)
        ensures
            r.path@ == path@,
            r.directory@ == directory@,
            r.index_file@ == index_file@,
            r.disable_etag == disable_etag,
            r.disable_last_modified == disable_last_modified,
            r.disable_content_disposition == disable_content_disposition,
            r.redirect_to_slash_directory == redirect_to_slash_directory,
            r.show_files_listing == show_files_listing,
    {
        ServiceOptions {
            path,
            directory,
            index_file,
            disable_etag,
            disable_last_modified,
            disable_content_disposition,
            redirect_to_slash_directory,
            show_files_listing,
        }
    }

    pub fn path(&self) -> (r: &str)
        ensures
            r@ == self.path@,
    {
        self.path.as_str()
    }

    pub fn directory(&self) -> (r: &str)
        ensures
            r@ == self.directory@,
    {
        self.directory.as_str()
    }

    pub fn index_file(&self) -> (r: &str)
        ensures
            r@ == self.index_file@,
    {
        self.index_file.as_str()
    }

    pub fn disable_etag(&self) -> (r: bool)
        ensures
            r == self.disable_etag,
    {
        self.disable_etag
    }

    pub fn disable_last_modified(&self) -> (r: bool)
        ensures
            r == self.disable_last_modified,
    {
        self.disable_last_modified
    }

    pub fn disable_content_disposition(&self) -> (r: bool)
        ensures
            r == self.disable_content_disposition,
    {
        self.disable_content_disposition
    }

    pub fn redirect_to_slash_directory(&self) -> (r: bool)
        ensures
            r == self.redirect_to_slash_directory,
    {
        self.redirect_to_slash_directory
    }

    pub fn show_files_listing(&self) -> (r: bool)
        ensures
            r == self.show_files_listing,
    {
        self.show_files_listing
    }
}

} // verus!
