use yt_fetcher::error::Error;
use yt_fetcher::fetcher::deps::ffmpeg::{
    ArchiveFormat, BuildFetcher, Extraction, ExtractionStep, Url,
};
use yt_fetcher::platform::{Architecture, Platform};

fn platforms() -> Vec<Platform> {
    vec![
        Platform::Windows,
        Platform::Linux,
        Platform::Mac,
        Platform::Unknown("plan9".to_string()),
    ]
}

fn architectures() -> Vec<Architecture> {
    vec![
        Architecture::X64,
        Architecture::X86,
        Architecture::Armv7l,
        Architecture::Aarch64,
        Architecture::Unknown("vax".to_string()),
    ]
}

fn asset(platform: Platform, architecture: Architecture) -> Option<(String, String)> {
    BuildFetcher::new()
        .select_asset(&platform, &architecture)
        .map(|asset| (asset.name, asset.download_url))
}

fn pair(name: &str, url: &str) -> Option<(String, String)> {
    Some((name.to_string(), url.to_string()))
}

#[test]
fn urls() {
    assert_eq!(
        Url::windows(),
        "https://www.gyan.dev/ffmpeg/builds/ffmpeg-release-essentials.zip"
    );
    assert_eq!(Url::macos_intel(), "https://www.osxexperts.net/ffmpeg71intel.zip");
    assert_eq!(Url::macos_arm(), "https://www.osxexperts.net/ffmpeg71arm.zip");
    assert_eq!(
        Url::linux("amd64"),
        "https://johnvansickle.com/ffmpeg/releases/ffmpeg-release-amd64-static.tar.xz"
    );
}

#[test]
fn windows_has_one_build() {
    for architecture in architectures() {
        assert_eq!(
            asset(Platform::Windows, architecture),
            pair("ffmpeg-release-essentials.zip", Url::windows())
        );
    }
}

#[test]
fn mac_has_two_builds() {
    assert_eq!(
        asset(Platform::Mac, Architecture::X64),
        pair("ffmpeg71intel.zip", Url::macos_intel())
    );
    assert_eq!(
        asset(Platform::Mac, Architecture::Aarch64),
        pair("ffmpeg71arm.zip", Url::macos_arm())
    );
    assert_eq!(asset(Platform::Mac, Architecture::X86), None);
    assert_eq!(asset(Platform::Mac, Architecture::Armv7l), None);
}

#[test]
fn linux_has_four_builds() {
    for (architecture, arch) in [
        (Architecture::X64, "amd64"),
        (Architecture::X86, "i686"),
        (Architecture::Armv7l, "armhf"),
        (Architecture::Aarch64, "arm64"),
    ] {
        assert_eq!(
            asset(Platform::Linux, architecture),
            pair(&format!("ffmpeg-release-{}-static.tar.xz", arch), &Url::linux(arch))
        );
    }
    assert_eq!(asset(Platform::Linux, Architecture::Unknown("vax".to_string())), None);
}

#[test]
fn unknown_platform_has_no_build() {
    let fetcher = BuildFetcher::new();
    let platform = Platform::Unknown("plan9".to_string());
    assert_eq!(fetcher.select_asset(&platform, &Architecture::X64), None);
    assert_eq!(
        fetcher.fetch_binary_for_platform(platform.clone(), Architecture::X64),
        Err(Error::Binary(platform, Architecture::X64))
    );
}

#[test]
fn release_is_the_asset() {
    let fetcher = BuildFetcher::default();
    let release =
        fetcher.fetch_binary_for_platform(Platform::Linux, Architecture::Aarch64).unwrap();
    assert_eq!(release.name, "ffmpeg-release-arm64-static.tar.xz");
    assert_eq!(release.url, Url::linux("arm64"));
}

#[test]
fn extraction_of_each_platform() {
    let fetcher = BuildFetcher::new();
    assert_eq!(
        fetcher.get_extraction_info(&Platform::Windows, &Architecture::X86),
        Some(Extraction {
            executable_path: "ffmpeg-7.1.1-essentials_build/bin/ffmpeg.exe".to_string(),
            extracted_dir: None,
            binary_extension: "exe".to_string(),
        })
    );
    assert_eq!(
        fetcher.get_extraction_info(&Platform::Mac, &Architecture::X86),
        Some(Extraction {
            executable_path: "ffmpeg".to_string(),
            extracted_dir: None,
            binary_extension: "".to_string(),
        })
    );
    for (architecture, dir) in [
        (Architecture::X64, "ffmpeg-7.0.2-amd64-static"),
        (Architecture::X86, "ffmpeg-7.0.2-i686-static"),
        (Architecture::Armv7l, "ffmpeg-7.0.2-armhf-static"),
        (Architecture::Aarch64, "ffmpeg-7.0.2-arm64-static"),
    ] {
        assert_eq!(
            fetcher.get_extraction_info(&Platform::Linux, &architecture),
            Some(Extraction {
                executable_path: "ffmpeg".to_string(),
                extracted_dir: Some(dir.to_string()),
                binary_extension: "".to_string(),
            })
        );
    }
    let unknown = Architecture::Unknown("vax".to_string());
    assert_eq!(fetcher.get_extraction_info(&Platform::Linux, &unknown), None);
}

#[test]
fn what_is_fetched_can_be_extracted() {
    let fetcher = BuildFetcher::new();
    for platform in platforms() {
        for architecture in architectures() {
            if let Some(asset) = fetcher.select_asset(&platform, &architecture) {
                let plan = fetcher
                    .extract_binary_for_platform(platform.clone(), architecture)
                    .unwrap();
                let suffix = match plan.format {
                    ArchiveFormat::Zip => ".zip",
                    ArchiveFormat::TarXz => ".tar.xz",
                };
                assert!(asset.name.ends_with(suffix));
            }
        }
    }
}

#[test]
fn plan_for_windows() {
    let plan = BuildFetcher::new()
        .extract_binary_for_platform(Platform::Windows, Architecture::X64)
        .unwrap();
    assert_eq!(plan.format, ArchiveFormat::Zip);
    assert_eq!(plan.binary_name, "ffmpeg.exe");
    assert_eq!(plan.executable, vec!["ffmpeg-7.1.1-essentials_build/bin/ffmpeg.exe"]);
    assert!(!plan.make_executable);
    assert_eq!(
        plan.steps(),
        vec![
            ExtractionStep::Unpack(ArchiveFormat::Zip),
            ExtractionStep::CopyBinary,
            ExtractionStep::RemoveDirectory,
            ExtractionStep::RemoveArchive,
        ]
    );
}

#[test]
fn plan_for_linux() {
    let plan = BuildFetcher::new()
        .extract_binary_for_platform(Platform::Linux, Architecture::X86)
        .unwrap();
    assert_eq!(plan.binary_name, "ffmpeg");
    assert_eq!(plan.executable, vec!["ffmpeg-7.0.2-i686-static", "ffmpeg"]);
    assert!(plan.make_executable);
    assert_eq!(
        plan.steps(),
        vec![
            ExtractionStep::Unpack(ArchiveFormat::TarXz),
            ExtractionStep::CopyBinary,
            ExtractionStep::RemoveDirectory,
            ExtractionStep::RemoveArchive,
            ExtractionStep::MakeExecutable,
        ]
    );
}

#[test]
fn no_plan_without_a_known_archive() {
    let fetcher = BuildFetcher::new();
    let unknown = Platform::Unknown("plan9".to_string());
    assert_eq!(
        fetcher.extract_binary_for_platform(unknown.clone(), Architecture::X64),
        Err(Error::Binary(unknown.clone(), Architecture::X64))
    );
    let info = fetcher.get_extraction_info(&Platform::Mac, &Architecture::X64).unwrap();
    assert_eq!(
        fetcher.extract_archive(info, unknown.clone(), Architecture::X86),
        Err(Error::Binary(unknown, Architecture::X86))
    );
}

#[test]
fn build_fetcher_in_words() {
    assert_eq!(BuildFetcher::new().to_text(), "BuildFetcher");
}

#[test]
fn archive_is_unpacked_beside_itself() {
    let plan = BuildFetcher::new()
        .extract_binary_for_platform(Platform::Linux, Architecture::X64)
        .unwrap();
    let places = plan.places("ffmpeg-release.tar.xz");
    assert_eq!(places.directory, "ffmpeg-release.tar");
    assert_eq!(
        places.executable,
        vec!["ffmpeg-release.tar", "ffmpeg-7.0.2-amd64-static", "ffmpeg"]
    );
    assert_eq!(places.binary, "ffmpeg");
}

#[test]
fn archive_named_like_the_binary_can_be_extracted() {
    let plan = BuildFetcher::new()
        .extract_binary_for_platform(Platform::Mac, Architecture::Aarch64)
        .unwrap();
    let places = plan.places("ffmpeg.zip");
    assert_eq!(places.binary, "ffmpeg");
    assert_eq!(places.directory, "ffmpeg.zip-ffmpeg");
    assert_eq!(places.executable, vec!["ffmpeg.zip-ffmpeg", "ffmpeg"]);
}

#[test]
fn directory_is_never_the_archive_or_the_binary() {
    let plan = BuildFetcher::new()
        .extract_binary_for_platform(Platform::Windows, Architecture::X64)
        .unwrap();
    for archive in ["ffmpeg.exe.zip", "archive", ".zip", "..zip", "...", "ffmpeg.exe", "a.zip"] {
        let directory = plan.unpack_directory(archive);
        assert_ne!(directory, archive);
        assert_ne!(directory, plan.binary_name);
        assert_ne!(directory, ".");
        assert_ne!(directory, "..");
    }
    assert_eq!(plan.unpack_directory("ffmpeg.zip"), "ffmpeg");
}
