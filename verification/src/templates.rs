//! Template manifest contents, one per supported manifest dialect, used to
//! generate fixture files when exercising the signing front ends.

use vstd::prelude::*;

verus! {

/// Which manifest dialect a generated fixture file uses.
pub enum ConfigFileType {
    CargoToml(ConfigTemplate),
    PackageJson(ConfigTemplate),
    PyProjectToml(ConfigTemplate),
    ComposerJson(ConfigTemplate),
}

/// How the fixture's author list starts out.
pub enum ConfigTemplate {
    NoAuthors,
    EmptyAuthors,
    WithAuthors,
    /// Free-form content for cases the named variants do not cover.
    Unique(String),
}

/// The text `cargo_template` hands back for each variant.
pub open spec fn cargo_template_text(template: ConfigTemplate) -> Seq<char> {
    match template {
        ConfigTemplate::NoAuthors => r#"
[package]
name = "example_project"
version = "0.1.0"
description = "An example Rust project"
            "#@,
        ConfigTemplate::EmptyAuthors => r#"
[package]
name = "example_project"
version = "0.1.0"
description = "An example Rust project"
authors = []
            "#@,
        _ => r#"
[package]
name = "example_project"
version = "0.1.0"
description = "An example Rust project"
authors = ["Jane Doe <jane.doe@example.com>"]
            "#@,
    }
}

/// A `Cargo.toml` fixture.
pub fn cargo_template(template: ConfigTemplate) -> (r: String)
    ensures
        r@ == cargo_template_text(template),
{
    match template {
        ConfigTemplate::NoAuthors => r#"
[package]
name = "example_project"
version = "0.1.0"
description = "An example Rust project"
            "#.to_owned(),
        ConfigTemplate::EmptyAuthors => r#"
[package]
name = "example_project"
version = "0.1.0"
description = "An example Rust project"
authors = []
            "#.to_owned(),
        _ => r#"
[package]
name = "example_project"
version = "0.1.0"
description = "An example Rust project"
authors = ["Jane Doe <jane.doe@example.com>"]
            "#.to_owned(),
    }
}

/// The text `packagejson_template` hands back for each variant.
pub open spec fn packagejson_template_text(template: ConfigTemplate) -> Seq<char> {
    match template {
        ConfigTemplate::NoAuthors => r#"
{
  "name": "example-project",
  "version": "0.1.0"
}
            "#@,
        ConfigTemplate::EmptyAuthors => r#"
{
  "name": "example-project",
  "version": "0.1.0",
  "contributors": []
}
            "#@,
        _ => r#"
{
  "name": "example-project",
  "version": "0.1.0",
  "contributors": [
    {
      "name": "Barney Rubble",
      "email": "b@rubble.com",
      "url": "http://barnyrubble.tumblr.com/"
    },
    {
      "author": "Barney Rubble <b@rubble.com> (http://barnyrubble.tumblr.com/)"
    },
    "Jane Doe <jane.doe@example.com>"
  ]
}
            "#@,
    }
}

/// A `package.json` fixture.
pub fn packagejson_template(template: ConfigTemplate) -> (r: String)
    ensures
        r@ == packagejson_template_text(template),
{
    match template {
        ConfigTemplate::NoAuthors => r#"
{
  "name": "example-project",
  "version": "0.1.0"
}
            "#.to_owned(),
        ConfigTemplate::EmptyAuthors => r#"
{
  "name": "example-project",
  "version": "0.1.0",
  "contributors": []
}
            "#.to_owned(),
        _ => r#"
{
  "name": "example-project",
  "version": "0.1.0",
  "contributors": [
    {
      "name": "Barney Rubble",
      "email": "b@rubble.com",
      "url": "http://barnyrubble.tumblr.com/"
    },
    {
      "author": "Barney Rubble <b@rubble.com> (http://barnyrubble.tumblr.com/)"
    },
    "Jane Doe <jane.doe@example.com>"
  ]
}
            "#.to_owned(),
    }
}

/// The text `pyprojecttoml_template` hands back for each variant.
pub open spec fn pyprojecttoml_template_text(template: ConfigTemplate) -> Seq<char> {
    match template {
        ConfigTemplate::NoAuthors => r#"
[tool.poetry]
name = "example-project"
version = "0.1.0"
description = "An example Python project"
            "#@,
        ConfigTemplate::EmptyAuthors => r#"
[tool.poetry]
name = "example-project"
version = "0.1.0"
description = "An example Python project"
authors = []
            "#@,
        _ => r#"
[tool.poetry]
name = "example-project"
version = "0.1.0"
description = "An example Python project"
authors = ["Jane Doe <jane.doe@example.com>"]
            "#@,
    }
}

/// A `pyproject.toml` fixture.
pub fn pyprojecttoml_template(template: ConfigTemplate) -> (r: String)
    ensures
        r@ == pyprojecttoml_template_text(template),
{
    match template {
        ConfigTemplate::NoAuthors => r#"
[tool.poetry]
name = "example-project"
version = "0.1.0"
description = "An example Python project"
            "#.to_owned(),
        ConfigTemplate::EmptyAuthors => r#"
[tool.poetry]
name = "example-project"
version = "0.1.0"
description = "An example Python project"
authors = []
            "#.to_owned(),
        _ => r#"
[tool.poetry]
name = "example-project"
version = "0.1.0"
description = "An example Python project"
authors = ["Jane Doe <jane.doe@example.com>"]
            "#.to_owned(),
    }
}

/// The text `composerjson_template` hands back for each variant.
pub open spec fn composerjson_template_text(template: ConfigTemplate) -> Seq<char> {
    match template {
        ConfigTemplate::NoAuthors => r#"
{
  "name": "example-project",
  "description": "An example PHP project",
  "version": "1.0.0",
  "require": {
    "php": ">=7.4",
    "monolog/monolog": "^2.0"
  }
}
            "#@,
        ConfigTemplate::EmptyAuthors => r#"
{
  "name": "example-project",
  "description": "An example PHP project",
  "version": "1.0.0",
  "authors": [],
  "require": {
    "php": ">=7.4",
    "monolog/monolog": "^2.0"
  }
}
            "#@,
        _ => r#"
{
  "name": "example-project",
  "description": "An example PHP project",
  "version": "1.0.0",
  "authors": [
    {
      "name": "Jane Doe",
      "email": "jane.doe@example.com",
      "role": "Developer"
    },
    {
      "name": "John Smith",
      "email": "john.smith@example.com",
      "role": "Maintainer"
    }
  ],
  "require": {
    "php": ">=7.4",
    "monolog/monolog": "^2.0"
  }
}
            "#@,
    }
}

/// A `composer.json` fixture.
pub fn composerjson_template(template: ConfigTemplate) -> (r: String)
    ensures
        r@ == composerjson_template_text(template),
{
    match template {
        ConfigTemplate::NoAuthors => r#"
{
  "name": "example-project",
  "description": "An example PHP project",
  "version": "1.0.0",
  "require": {
    "php": ">=7.4",
    "monolog/monolog": "^2.0"
  }
}
            "#.to_owned(),
        ConfigTemplate::EmptyAuthors => r#"
{
  "name": "example-project",
  "description": "An example PHP project",
  "version": "1.0.0",
  "authors": [],
  "require": {
    "php": ">=7.4",
    "monolog/monolog": "^2.0"
  }
}
            "#.to_owned(),
        _ => r#"
{
  "name": "example-project",
  "description": "An example PHP project",
  "version": "1.0.0",
  "authors": [
    {
      "name": "Jane Doe",
      "email": "jane.doe@example.com",
      "role": "Developer"
    },
    {
      "name": "John Smith",
      "email": "john.smith@example.com",
      "role": "Maintainer"
    }
  ],
  "require": {
    "php": ">=7.4",
    "monolog/monolog": "^2.0"
  }
}
            "#.to_owned(),
    }
}

/// The content a fixture file of the given dialect starts with.
pub open spec fn config_content_text(config_type: ConfigFileType) -> Seq<char> {
    match config_type {
        ConfigFileType::CargoToml(template) => cargo_template_text(template),
        ConfigFileType::PackageJson(template) => packagejson_template_text(template),
        ConfigFileType::PyProjectToml(template) => pyprojecttoml_template_text(template),
        ConfigFileType::ComposerJson(template) => composerjson_template_text(template),
    }
}

/// The content for a fixture file of the given dialect.
pub fn config_content(config_type: ConfigFileType) -> (r: String)
    ensures
        r@ == config_content_text(config_type),
{
    match config_type {
        ConfigFileType::CargoToml(template) => cargo_template(template),
        ConfigFileType::PackageJson(template) => packagejson_template(template),
        ConfigFileType::PyProjectToml(template) => pyprojecttoml_template(template),
        ConfigFileType::ComposerJson(template) => composerjson_template(template),
    }
}

} // verus!
