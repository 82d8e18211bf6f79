//! Engine configuration.
//!
//! The engine consumes an already-validated settings value supplied at
//! startup; nothing here reads the environment or a file.  Loading a
//! settings file and turning the `Extensions` flags into a renderer's
//! option set are left to the surrounding program.

use vstd::prelude::*;
use vstd::string::StringExecFns;

verus! {

/// The whole configuration: rendering extension switches plus the main
/// engine settings.
pub struct Config {
    pub extensions: Extensions,
    pub mainconfig: Main,
}

/// Main engine settings.
pub struct Main {
    /// Directory that holds one subdirectory per article.
    pub articles_dir: String,
    /// Capacity of the recency cache, in articles.
    pub max_cached_articles: usize,
    /// Whether the built-in sample article is served under the reserved
    /// id `0`.
    pub sample_article: bool,
    /// Address the surrounding server binds to.
    pub address: String,
    /// Port the surrounding server binds to.
    pub port: u16,
    /// Whether cache hit statistics are recorded.
    pub record_cache_stats: bool,
    /// Whether article bodies are rendered to markup, or passed through
    /// unchanged.
    pub markdown_to_html: bool,
}

/// Switches for the markup renderer's extensions.
pub struct Extensions {
    pub strikethrough: bool,
    pub autolink: bool,
    pub description_lists: bool,
    pub footnotes: bool,
    pub front_matter_delimiter: Option<String>,
    pub greentext: bool,
    pub header_ids: Option<String>,
    pub math_code: bool,
    pub math_dollars: bool,
    pub multiline_block_quotes: bool,
    pub shortcodes: bool,
    pub spoiler: bool,
    pub subscript: bool,
    pub superscript: bool,
    pub table: bool,
    pub tagfilter: bool,
    pub tasklist: bool,
    pub underline: bool,
    pub wikilinks_title_after_pipe: bool,
    pub wikilinks_title_before_pipe: bool,
}

/// Default capacity of the recency cache.
pub fn default_max_cached_articles() -> (r: usize)
    ensures
        r == 100,
{
    100
}

/// By default the sample article is not served.
pub fn default_sample_article() -> (r: bool)
    ensures
        r == false,
{
    false
}

/// Default bind address of the surrounding server.
pub fn default_address() -> (r: String)
    ensures
        r@ == "127.0.0.1"@,
{
    let a = String::from_str("127.0.0.1");
    a
}

/// Default bind port of the surrounding server.
pub fn default_port() -> (r: u16)
    ensures
        r == 8080,
{
    8080
}

/// By default cache statistics are not recorded.
pub fn default_record_cache_stats() -> (r: bool)
    ensures
        r == false,
{
    false
}

/// By default article bodies are rendered to markup.
pub fn default_markdown_to_html() -> (r: bool)
    ensures
        r == true,
{
    true
}

/// Renderer extensions are switched on unless configured otherwise.
pub fn default_true() -> (r: bool)
    ensures
        r == true,
{
    true
}

/// By default no front-matter delimiter is recognised.
pub fn default_front_matter_delimiter() -> (r: Option<String>)
    ensures
        r is None,
{
    None
}

/// By default headers get no id attributes.
pub fn default_header_ids() -> (r: Option<String>)
    ensures
        r is None,
{
    None
}

impl Default for Config {
    /// Every switch off and every value empty or zero.
    fn default() -> (r: Config)
        ensures
            Extensions::default.ensures((), r.extensions),
            Main::default.ensures((), r.mainconfig),
    {
        Config { extensions: Extensions::default(), mainconfig: Main::default() }
    }
}

impl Default for Main {
    /// Empty directory and address, zero capacity and port, every switch
    /// off.
    fn default() -> (r: Main)
        ensures
            r.articles_dir@ == Seq::<char>::empty(),
            r.max_cached_articles == 0,
            r.sample_article == false,
            r.address@ == Seq::<char>::empty(),
            r.port == 0,
            r.record_cache_stats == false,
            r.markdown_to_html == false,
    {
        Main {
            articles_dir: String::new(),
            max_cached_articles: 0,
            sample_article: false,
            address: String::new(),
            port: 0,
            record_cache_stats: false,
            markdown_to_html: false,
        }
    }
}

impl Default for Extensions {
    /// Every switch off, no front-matter delimiter, no header ids.
    fn default() -> (r: Extensions)
        ensures
            !r.strikethrough && !r.autolink && !r.description_lists && !r.footnotes && !r.greentext
                && !r.math_code && !r.math_dollars && !r.multiline_block_quotes && !r.shortcodes
                && !r.spoiler && !r.subscript && !r.superscript && !r.table && !r.tagfilter
                && !r.tasklist && !r.underline && !r.wikilinks_title_after_pipe
                && !r.wikilinks_title_before_pipe,
            r.front_matter_delimiter is None,
            r.header_ids is None,
    {
        Extensions {
            strikethrough: false,
            autolink: false,
            description_lists: false,
            footnotes: false,
            front_matter_delimiter: None,
            greentext: false,
            header_ids: None,
            math_code: false,
            math_dollars: false,
            multiline_block_quotes: false,
            shortcodes: false,
            spoiler: false,
            subscript: false,
            superscript: false,
            table: false,
            tagfilter: false,
            tasklist: false,
            underline: false,
            wikilinks_title_after_pipe: false,
            wikilinks_title_before_pipe: false,
        }
    }
}

impl Extensions {
    /// All switches on, no front-matter delimiter, no header ids.
    pub fn standard() -> (r: Extensions)
        ensures
            r.strikethrough && r.autolink && r.description_lists && r.footnotes && r.greentext
                && r.math_code && r.math_dollars && r.multiline_block_quotes && r.shortcodes
                && r.spoiler && r.subscript && r.superscript && r.table && r.tagfilter
                && r.tasklist && r.underline && r.wikilinks_title_after_pipe
                && r.wikilinks_title_before_pipe,
            r.front_matter_delimiter is None,
            r.header_ids is None,
    {
        Extensions {
            strikethrough: true,
            autolink: true,
            description_lists: true,
            footnotes: true,
            front_matter_delimiter: None,
            greentext: true,
            header_ids: None,
            math_code: true,
            math_dollars: true,
            multiline_block_quotes: true,
            shortcodes: true,
            spoiler: true,
            subscript: true,
            superscript: true,
            table: true,
            tagfilter: true,
            tasklist: true,
            underline: true,
            wikilinks_title_after_pipe: true,
            wikilinks_title_before_pipe: true,
        }
    }
}

} // verus!
