//! The settings of a run, from the files and the environment on.
use crate::config::catalog::ProviderCatalogView;
use crate::config::file;
use crate::config::file::FileConfigView;
use crate::config::persist;
use crate::config::settings;
use crate::config::settings::Config;
use crate::config::settings::Environment;
use crate::config::settings::EnvironmentView;
use crate::provider::models_dev::AliasView;
use crate::provider::models_dev::CatalogView;
use crate::provider::models_dev::ModelsDevCatalog;
use crate::provider::models_dev::ModelsDevProviderAlias;
use crate::provider::OpenAiApi;
use crate::text;
use std::path::PathBuf;
use vstd::prelude::*;
use vstd::string::*;

verus! {

/// A configuration file: how it is called in messages, and its text, where
/// there is such a file.
pub struct ConfigSource {
    pub shown: String,
    pub content: Option<String>,
}

/// What is known of models.
pub struct KnownModels {
    pub catalog: ModelsDevCatalog,
    pub aliases: Vec<ModelsDevProviderAlias>,
}

/// What the two files say together, or what is wrong with the first bad one.
pub open spec fn merged_sources(global: ConfigSource, project: ConfigSource) -> Result<
    FileConfigView,
    Seq<char>,
> {
    match persist::read_file(global.shown@, text::opt(global.content)) {
        Err(message) => Err(message),
        Ok(first) => match persist::read_file(project.shown@, text::opt(project.content)) {
            Err(message) => Err(message),
            Ok(second) => Ok(file::merged_file(first, second)),
        },
    }
}

/// The configured providers, with what is known of models.
pub open spec fn known_catalog(
    env: EnvironmentView,
    file: FileConfigView,
    api: OpenAiApi,
    catalog: CatalogView,
    aliases: Seq<AliasView>,
) -> ProviderCatalogView {
    ProviderCatalogView {
        models_dev_aliases: aliases,
        ..settings::configured(env, file, api, catalog)
    }
}

impl Config {
    /// The settings of a run: the project's file counts before the global one,
    /// and the environment before both.
    pub fn load_from(
        env: &Environment,
        global: &ConfigSource,
        project: &ConfigSource,
        known: KnownModels,
        working_dir: PathBuf,
    ) -> (r: Result<Config, String>)
        requires
            known.catalog.wf(),
        ensures
            match merged_sources(*global, *project) {
                Err(message) => r is Err && r->Err_0@ == message,
                Ok(file) => match settings::legacy_api(env@, file.openai_api) {
                    Err(message) => r is Err && r->Err_0@ == message,
                    Ok(api) => {
                        let providers = known_catalog(
                            env@,
                            file,
                            api,
                            known.catalog@,
                            text::views(known.aliases@),
                        );
                        match settings::config_fault(env@, file, providers) {
                            Some(fault) => r is Err && r->Err_0@ == fault,
                            None => r is Ok && settings::config_holds(
                                r->Ok_0,
                                env@,
                                file,
                                providers,
                                working_dir,
                            ),
                        }
                    },
                },
            },
    {
        let first = match persist::read_config_file(
            global.shown.as_str(),
            match &global.content {
                Some(content) => Some(content.as_str()),
                None => None,
            },
        ) {
            Ok(first) => first,
            Err(message) => {
                return Err(message);
            },
        };
        let second = match persist::read_config_file(
            project.shown.as_str(),
            match &project.content {
                Some(content) => Some(content.as_str()),
                None => None,
            },
        ) {
            Ok(second) => second,
            Err(message) => {
                return Err(message);
            },
        };
        let file = first.merge(second);
        let mut providers = match settings::provider_catalog(env, &file) {
            Ok(providers) => providers,
            Err(message) => {
                return Err(message);
            },
        };
        providers.models_dev = known.catalog;
        providers.models_dev_aliases = known.aliases;
        Config::resolve(env, &file, providers, working_dir)
    }
}

} // verus!
