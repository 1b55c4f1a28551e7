use vstd::prelude::*;

verus! {


/// Whether `s` ends with a slash.
pub open spec fn ends_with_slash(s: Seq<char>) -> bool {
    s.len() > 0 && s.last() == '/'
}

/// The prefix as the server uses it: with a trailing slash added where missing.
pub open spec fn normalized_prefix(s: Seq<char>) -> Seq<char> {
    if ends_with_slash(s) {
        s
    } else {
        s.push('/')
    }
}

/// Settings of a static file server.
#[derive(Clone)]
pub struct Options {
    allow_directory_listing: bool,
    prefix: String,
}

impl Options {
    /// Whether a directory may be listed.
    pub closed spec fn listing_allowed(&self) -> bool {
        self.allow_directory_listing
    }

    /// The URI prefix under which files are served.
    pub closed spec fn prefix_view(&self) -> Seq<char> {
        self.prefix@
    }

    pub fn allow_directory_listing(&self) -> (r: bool)
        ensures
            r == self.listing_allowed(),
    {
        self.allow_directory_listing
    }

    pub fn prefix(&self) -> (r: &str)
        ensures
            r@ == self.prefix_view(),
    {
        self.prefix.as_str()
    }
}

impl Default for Options {
    /// No listing, and everything under `/` is served.
    fn default() -> (r: Options)
        ensures
            !r.listing_allowed(),
            r.prefix_view() == seq!['/'],
    {
        let prefix = String::from_str("/");
        proof {
            reveal_strlit("/");
        }
        Options { allow_directory_listing: false, prefix }
    }
}

/// Builds `Options` step by step.
#[derive(Clone)]
pub struct OptionsBuilder {
    options: Options,
}

impl OptionsBuilder {
    /// What the built options will hold before the prefix is normalized.
    pub closed spec fn options_view(&self) -> Options {
        self.options
    }

    pub fn new() -> (r: OptionsBuilder)
        ensures
            !r.options_view().listing_allowed(),
            r.options_view().prefix_view() == seq!['/'],
    {
        OptionsBuilder { options: Options::default() }
    }

    pub fn allow_directory_listing(self, allow: bool) -> (r: OptionsBuilder)
        ensures
            r.options_view().listing_allowed() == allow,
            r.options_view().prefix_view() == self.options_view().prefix_view(),
    {
        let mut b = self;
        b.options.allow_directory_listing = allow;
        b
    }

    pub fn prefix(self, prefix: &str) -> (r: OptionsBuilder)
        ensures
            r.options_view().listing_allowed() == self.options_view().listing_allowed(),
            r.options_view().prefix_view() == prefix@,
    {
        let mut b = self;
        b.options.prefix = prefix.to_owned();
        b
    }

    /// The finished options; the prefix gets a trailing slash where it has none.
    pub fn build(self) -> (r: Options)
        ensures
            r.listing_allowed() == self.options_view().listing_allowed(),
            r.prefix_view() == normalized_prefix(self.options_view().prefix_view()),
    {
        let mut options = self.options;
        if !ends_with_slash_exec(&options.prefix) {
            options.prefix.append("/");
            proof {
                reveal_strlit("/");
            }
        }
        options
    }
}

/// Whether the last character of `s` is a slash.
fn ends_with_slash_exec(s: &String) -> (r: bool)
    ensures
        r == ends_with_slash(s@),
{
    let n = s.as_str().unicode_len();
    n > 0 && s.as_str().get_char(n - 1) == '/'
}

} // verus!
