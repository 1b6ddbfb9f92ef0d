//! The settings of a publishing run, and the counts it reports.

use vstd::prelude::*;

verus! {

/// The settings of a publishing run.
#[derive(Debug)]
pub struct PublishConfig {
    pub input_dir: String,
    pub output_dir: String,
    pub theme: String,
    pub include_backlinks: bool,
    pub include_graph_view: bool,
    pub custom_css: Option<String>,
}

/// The counts that a publishing run reports.
#[derive(Debug)]
pub struct PublishStats {
    pub page_count: usize,
    pub total_blocks: usize,
    pub total_links: usize,
    pub orphan_pages: usize,
}

impl PublishConfig {
    /// The settings for publishing `input_dir` to `output_dir`: the default
    /// theme, with backlinks, without a graph view or a style sheet of the
    /// caller's own.
    pub fn new(input_dir: String, output_dir: String) -> (c: PublishConfig)
        ensures
            c.input_dir@ == input_dir@,
            c.output_dir@ == output_dir@,
            c.theme@ == "default"@,
            c.include_backlinks,
            !c.include_graph_view,
            c.custom_css is None,
    {
        PublishConfig {
            input_dir,
            output_dir,
            theme: String::from_str("default"),
            include_backlinks: true,
            include_graph_view: false,
            custom_css: None,
        }
    }

    /// The theme.
    pub fn theme(&self) -> (r: String)
        ensures
            r@ == self.theme@,
    {
        self.theme.clone()
    }

    /// Sets the theme.
    pub fn set_theme(&mut self, theme: String)
        ensures
            final(self).theme@ == theme@,
            final(self).input_dir == old(self).input_dir,
            final(self).output_dir == old(self).output_dir,
            final(self).include_backlinks == old(self).include_backlinks,
            final(self).include_graph_view == old(self).include_graph_view,
            final(self).custom_css == old(self).custom_css,
    {
        self.theme = theme;
    }

    /// Whether the pages show their backlinks.
    pub fn include_backlinks(&self) -> (r: bool)
        ensures
            r == self.include_backlinks,
    {
        self.include_backlinks
    }

    /// Sets whether the pages show their backlinks.
    pub fn set_include_backlinks(&mut self, enabled: bool)
        ensures
            final(self).include_backlinks == enabled,
            final(self).input_dir == old(self).input_dir,
            final(self).output_dir == old(self).output_dir,
            final(self).theme == old(self).theme,
            final(self).include_graph_view == old(self).include_graph_view,
            final(self).custom_css == old(self).custom_css,
    {
        self.include_backlinks = enabled;
    }

    /// Whether the site shows a view of the graph.
    pub fn include_graph_view(&self) -> (r: bool)
        ensures
            r == self.include_graph_view,
    {
        self.include_graph_view
    }

    /// Sets whether the site shows a view of the graph.
    pub fn set_include_graph_view(&mut self, enabled: bool)
        ensures
            final(self).include_graph_view == enabled,
            final(self).input_dir == old(self).input_dir,
            final(self).output_dir == old(self).output_dir,
            final(self).theme == old(self).theme,
            final(self).include_backlinks == old(self).include_backlinks,
            final(self).custom_css == old(self).custom_css,
    {
        self.include_graph_view = enabled;
    }
}

} // verus!
