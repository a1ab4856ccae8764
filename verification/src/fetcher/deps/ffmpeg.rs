//! The latest release of `ffmpeg` from static builds.
use crate::error::Error;
use crate::fetcher::deps::{Asset, WantedRelease};
use crate::platform::{Architecture, Platform};
use crate::text::{after_last, file_stem, last_segment, same_text, stem};
use vstd::prelude::*;
use vstd::string::StringExecFns;

verus! {

/// Where the builds for each platform and architecture are.
#[derive(Debug, Clone)]
pub struct Url;

impl Url {
    /// The build for Windows.
    pub fn windows() -> (res: &'static str)
        ensures
            res@ == "https://www.gyan.dev/ffmpeg/builds/ffmpeg-release-essentials.zip"@,
    {
        "https://www.gyan.dev/ffmpeg/builds/ffmpeg-release-essentials.zip"
    }

    /// The build for macOS on Intel.
    pub fn macos_intel() -> (res: &'static str)
        ensures
            res@ == "https://www.osxexperts.net/ffmpeg71intel.zip"@,
    {
        "https://www.osxexperts.net/ffmpeg71intel.zip"
    }

    /// The build for macOS on ARM.
    pub fn macos_arm() -> (res: &'static str)
        ensures
            res@ == "https://www.osxexperts.net/ffmpeg71arm.zip"@,
    {
        "https://www.osxexperts.net/ffmpeg71arm.zip"
    }

    /// The build for Linux on `arch`.
    pub fn linux(arch: &str) -> (res: String)
        ensures
            res@ == linux_url(arch@),
    {
        let mut res = "https://johnvansickle.com/ffmpeg/releases/ffmpeg-release-".to_string();
        res.append(arch);
        res.append("-static.tar.xz");
        res
    }
}

/// The build for Linux on `arch`.
pub open spec fn linux_url(arch: Seq<char>) -> Seq<char> {
    "https://johnvansickle.com/ffmpeg/releases/ffmpeg-release-"@ + arch + "-static.tar.xz"@
}

/// The name by which the Linux builds call an architecture, if there is one for it.
pub open spec fn linux_arch(architecture: Architecture) -> Option<Seq<char>> {
    match architecture {
        Architecture::X64 => Some("amd64"@),
        Architecture::X86 => Some("i686"@),
        Architecture::Armv7l => Some("armhf"@),
        Architecture::Aarch64 => Some("arm64"@),
        Architecture::Unknown(_) => None,
    }
}

/// Where the build for a machine is, if there is one: Windows has one for all, macOS one
/// for each of its two architectures, Linux one for each of four.
pub open spec fn asset_url(platform: Platform, architecture: Architecture) -> Option<Seq<char>> {
    match platform {
        Platform::Windows => Some(
            "https://www.gyan.dev/ffmpeg/builds/ffmpeg-release-essentials.zip"@,
        ),
        Platform::Mac => match architecture {
            Architecture::X64 => Some("https://www.osxexperts.net/ffmpeg71intel.zip"@),
            Architecture::Aarch64 => Some("https://www.osxexperts.net/ffmpeg71arm.zip"@),
            _ => None,
        },
        Platform::Linux => match linux_arch(architecture) {
            Some(arch) => Some(linux_url(arch)),
            None => None,
        },
        Platform::Unknown(_) => None,
    }
}

/// Where the binary is inside a downloaded archive.
#[derive(Debug, PartialEq, Eq)]
pub struct Extraction {
    /// Path to the executable within the extracted directory.
    pub executable_path: String,
    /// Name of the extracted directory, if the archive has one.
    pub extracted_dir: Option<String>,
    /// File extension of the binary.
    pub binary_extension: String,
}

/// Where the binary is inside a downloaded archive, in plain sequences.
#[verifier::ext_equal]
pub struct ExtractionView {
    /// Path to the executable within the extracted directory.
    pub executable_path: Seq<char>,
    /// Name of the extracted directory.
    pub extracted_dir: Option<Seq<char>>,
    /// File extension of the binary.
    pub binary_extension: Seq<char>,
}

impl View for Extraction {
    type V = ExtractionView;

    open spec fn view(&self) -> ExtractionView {
        ExtractionView {
            executable_path: self.executable_path@,
            extracted_dir: match self.extracted_dir {
                Some(dir) => Some(dir@),
                None => None,
            },
            binary_extension: self.binary_extension@,
        }
    }
}

/// Where the binary is inside the archive for a machine, if archives for it are known.
pub open spec fn extraction_info(platform: Platform, architecture: Architecture) -> Option<
    ExtractionView,
> {
    match platform {
        Platform::Windows => Some(
            ExtractionView {
                executable_path: "ffmpeg-7.1.1-essentials_build/bin/ffmpeg.exe"@,
                extracted_dir: None,
                binary_extension: "exe"@,
            },
        ),
        Platform::Mac => Some(
            ExtractionView {
                executable_path: "ffmpeg"@,
                extracted_dir: None,
                binary_extension: ""@,
            },
        ),
        Platform::Linux => match linux_arch(architecture) {
            Some(arch) => Some(
                ExtractionView {
                    executable_path: "ffmpeg"@,
                    extracted_dir: Some("ffmpeg-7.0.2-"@ + arch + "-static"@),
                    binary_extension: ""@,
                },
            ),
            None => None,
        },
        Platform::Unknown(_) => None,
    }
}

/// The ffmpeg fetcher knows which build of ffmpeg fits a machine, and how to get the binary
/// out of the downloaded archive.
#[derive(Debug, Clone)]
pub struct BuildFetcher;

impl Default for BuildFetcher {
    fn default() -> (res: Self)
        ensures
            res == BuildFetcher,
    {
        BuildFetcher
    }
}

impl BuildFetcher {
    /// Creates a new fetcher for ffmpeg.
    pub fn new() -> (res: Self)
        ensures
            res == BuildFetcher,
    {
        BuildFetcher
    }

    /// The fetcher in words.
    pub fn to_text(&self) -> (res: String)
        ensures
            res@ == "BuildFetcher"@,
    {
        "BuildFetcher".to_string()
    }

    /// The release for the given platform and architecture. That there is none is an error.
    pub fn fetch_binary_for_platform(&self, platform: Platform, architecture: Architecture) -> (res:
        Result<WantedRelease, Error>)
        ensures
            match asset_url(platform, architecture) {
                Some(url) => res matches Ok(release) && release.url@ == url && release.name@
                    == after_last(url, '/'),
                None => res == Err::<WantedRelease, Error>(Error::Binary(platform, architecture)),
            },
    {
        match self.select_asset(&platform, &architecture) {
            Some(asset) => Ok(WantedRelease { url: asset.download_url, name: asset.name }),
            None => Err(Error::Binary(platform, architecture)),
        }
    }

    /// Selects the correct ffmpeg asset for the given platform and architecture. Its name is
    /// the last part of its URL.
    pub fn select_asset(&self, platform: &Platform, architecture: &Architecture) -> (res: Option<
        Asset,
    >)
        ensures
            match asset_url(*platform, *architecture) {
                Some(url) => res matches Some(asset) && asset.download_url@ == url && asset.name@
                    == after_last(url, '/'),
                None => res is None,
            },
    {
        let url = match (platform, architecture) {
            (Platform::Windows, _) => Url::windows().to_string(),
            (Platform::Mac, Architecture::X64) => Url::macos_intel().to_string(),
            (Platform::Mac, Architecture::Aarch64) => Url::macos_arm().to_string(),
            (Platform::Linux, Architecture::X64) => Url::linux("amd64"),
            (Platform::Linux, Architecture::X86) => Url::linux("i686"),
            (Platform::Linux, Architecture::Armv7l) => Url::linux("armhf"),
            (Platform::Linux, Architecture::Aarch64) => Url::linux("arm64"),
            _ => {
                return None;
            },
        };
        let name = last_segment(url.as_str());
        Some(Asset { name, download_url: url })
    }

    /// Where the binary is inside the archive for the given platform and architecture.
    pub fn get_extraction_info(&self, platform: &Platform, architecture: &Architecture) -> (res:
        Option<Extraction>)
        ensures
            match extraction_info(*platform, *architecture) {
                Some(info) => res matches Some(extraction) && extraction@ == info,
                None => res is None,
            },
    {
        match (platform, architecture) {
            (Platform::Windows, _) => Some(
                Extraction {
                    executable_path: "ffmpeg-7.1.1-essentials_build/bin/ffmpeg.exe".to_string(),
                    extracted_dir: None,
                    binary_extension: "exe".to_string(),
                },
            ),
            (Platform::Mac, _) => Some(plain_extraction(None)),
            (Platform::Linux, Architecture::X64) => Some(linux_extraction("amd64")),
            (Platform::Linux, Architecture::X86) => Some(linux_extraction("i686")),
            (Platform::Linux, Architecture::Armv7l) => Some(linux_extraction("armhf")),
            (Platform::Linux, Architecture::Aarch64) => Some(linux_extraction("arm64")),
            _ => None,
        }
    }
}

/// How an archive is packed.
#[derive(Debug, Clone, Copy, PartialEq, Eq, Structural)]
pub enum ArchiveFormat {
    /// A zip archive.
    Zip,
    /// A tar archive, compressed with xz.
    TarXz,
}

/// A step on the way from an archive to the binary.
#[derive(Debug, Clone, Copy, PartialEq, Eq, Structural)]
pub enum ExtractionStep {
    /// Unpack the archive into the destination directory.
    Unpack(ArchiveFormat),
    /// Copy the executable to its final place, beside the archive.
    CopyBinary,
    /// Remove the destination directory.
    RemoveDirectory,
    /// Remove the archive.
    RemoveArchive,
    /// Give the binary its executable permissions.
    MakeExecutable,
}

/// How to get the binary out of an archive.
#[derive(Debug, PartialEq, Eq)]
pub struct ExtractionPlan {
    /// How the archive is packed.
    pub format: ArchiveFormat,
    /// The name that the binary gets, beside the archive.
    pub binary_name: String,
    /// The path of the executable in the destination directory, one part after the other.
    pub executable: Vec<String>,
    /// Whether the binary needs executable permissions.
    pub make_executable: bool,
}

/// How the archives for a platform are packed, if that is known.
pub open spec fn archive_format(platform: Platform) -> Option<ArchiveFormat> {
    match platform {
        Platform::Windows | Platform::Mac => Some(ArchiveFormat::Zip),
        Platform::Linux => Some(ArchiveFormat::TarXz),
        Platform::Unknown(_) => None,
    }
}

/// The name of the binary with the given extension.
pub open spec fn binary_name(extension: Seq<char>) -> Seq<char> {
    if extension.len() > 0 {
        "ffmpeg"@ + "."@ + extension
    } else {
        "ffmpeg"@
    }
}

/// The parts of the path to the executable in the destination directory.
pub open spec fn executable_parts(info: ExtractionView) -> Seq<Seq<char>> {
    match info.extracted_dir {
        Some(dir) => seq![dir, info.executable_path],
        None => seq![info.executable_path],
    }
}

/// The texts of `names`.
pub open spec fn texts(names: Seq<String>) -> Seq<Seq<char>> {
    names.map_values(|s: String| s@)
}

/// Whether `plan` gets the binary that `info` describes on `platform`.
pub open spec fn plans(plan: ExtractionPlan, info: ExtractionView, platform: Platform) -> bool {
    &&& Some(plan.format) == archive_format(platform)
    &&& plan.binary_name@ == binary_name(info.binary_extension)
    &&& texts(plan.executable@) == executable_parts(info)
    &&& plan.make_executable == (platform is Mac || platform is Linux)
}

/// The steps of an extraction. The first one that fails ends it.
pub open spec fn extraction_steps(format: ArchiveFormat, make_executable: bool) -> Seq<
    ExtractionStep,
> {
    let steps = seq![
        ExtractionStep::Unpack(format),
        ExtractionStep::CopyBinary,
        ExtractionStep::RemoveDirectory,
        ExtractionStep::RemoveArchive,
    ];
    if make_executable {
        steps.push(ExtractionStep::MakeExecutable)
    } else {
        steps
    }
}

impl BuildFetcher {
    /// Plans how to get the ffmpeg binary out of the downloaded archive, for the given
    /// platform and architecture. That there are no archives for them is an error.
    pub fn extract_binary_for_platform(
        &self,
        platform: Platform,
        architecture: Architecture,
    ) -> (res: Result<ExtractionPlan, Error>)
        ensures
            match extraction_info(platform, architecture) {
                Some(info) => res matches Ok(plan) && plans(plan, info, platform),
                None => res == Err::<ExtractionPlan, Error>(
                    Error::Binary(platform, architecture),
                ),
            },
    {
        match self.get_extraction_info(&platform, &architecture) {
            Some(info) => self.extract_archive(info, platform, architecture),
            None => Err(Error::Binary(platform, architecture)),
        }
    }

    /// Plans how to get a binary out of an archive. On a platform without a known archive
    /// format that is an error, which names `architecture` as the one of this machine.
    pub fn extract_archive(
        &self,
        extraction_info: Extraction,
        platform: Platform,
        architecture: Architecture,
    ) -> (res: Result<ExtractionPlan, Error>)
        ensures
            if archive_format(platform) is Some {
                res matches Ok(plan) && plans(plan, extraction_info@, platform)
            } else {
                res == Err::<ExtractionPlan, Error>(Error::Binary(platform, architecture))
            },
    {
        let format = match &platform {
            Platform::Windows | Platform::Mac => ArchiveFormat::Zip,
            Platform::Linux => ArchiveFormat::TarXz,
            Platform::Unknown(_) => {
                return Err(Error::Binary(platform, architecture));
            },
        };
        let make_executable = match &platform {
            Platform::Mac | Platform::Linux => true,
            _ => false,
        };
        let ghost info = extraction_info@;
        let mut binary_name = "ffmpeg".to_string();
        if !extraction_info.binary_extension.as_str().is_empty() {
            binary_name.append(".");
            binary_name.append(extraction_info.binary_extension.as_str());
        }
        let mut executable: Vec<String> = Vec::new();
        if let Some(dir) = extraction_info.extracted_dir {
            executable.push(dir);
        }
        executable.push(extraction_info.executable_path);
        proof {
            assert(texts(executable@) =~= executable_parts(info));
        }
        Ok(ExtractionPlan { format, binary_name, executable, make_executable })
    }
}

/// Whether a directory of this name can lie beside the archive and the binary: it is neither
/// of them, and not a name for this directory or the one above it.
pub open spec fn is_free_name(name: Seq<char>, archive: Seq<char>, binary: Seq<char>) -> bool {
    name != archive && name != binary && name != "."@ && name != ".."@
}

/// The name of the directory that an archive is unpacked into: the name of the archive
/// without its extension, or one made from both names if that one is not free.
pub open spec fn unpack_name(archive: Seq<char>, binary: Seq<char>) -> Seq<char> {
    if is_free_name(stem(archive), archive, binary) {
        stem(archive)
    } else {
        archive + "-"@ + binary
    }
}

/// Where things lie during an extraction, seen from the directory of the archive.
#[derive(Debug, PartialEq, Eq)]
pub struct ExtractionPlaces {
    /// The name of the directory to unpack into, in the directory of the archive.
    pub directory: String,
    /// The path of the unpacked executable, one part after the other, from the directory of
    /// the archive on.
    pub executable: Vec<String>,
    /// The name of the binary, in the directory of the archive.
    pub binary: String,
}

impl ExtractionPlan {
    /// The name of the directory to unpack the archive into. It lies beside the archive and
    /// the binary, and is never one of them.
    pub fn unpack_directory(&self, archive_name: &str) -> (res: String)
        ensures
            res@ == unpack_name(archive_name@, self.binary_name@),
            res@ != self.binary_name@,
            res@ != archive_name@,
            is_free_name(stem(archive_name@), archive_name@, self.binary_name@) ==> res@ == stem(
                archive_name@,
            ),
    {
        proof {
            lemma_unpack_name(archive_name@, self.binary_name@);
        }
        let name = file_stem(archive_name);
        if same_text(name.as_str(), archive_name) || same_text(
            name.as_str(),
            self.binary_name.as_str(),
        ) || same_text(name.as_str(), ".") || same_text(name.as_str(), "..") {
            let mut other = archive_name.to_string();
            other.append("-");
            other.append(self.binary_name.as_str());
            other
        } else {
            name
        }
    }

    /// Where everything lies when the archive of this name is extracted: the binary in the
    /// directory of the archive, and the executable in the directory that is unpacked into.
    pub fn places(&self, archive_name: &str) -> (res: ExtractionPlaces)
        ensures
            res.directory@ == unpack_name(archive_name@, self.binary_name@),
            texts(res.executable@) == seq![res.directory@] + texts(self.executable@),
            res.binary@ == self.binary_name@,
    {
        let directory = self.unpack_directory(archive_name);
        let mut executable: Vec<String> = Vec::new();
        executable.push(directory.clone());
        let mut i: usize = 0;
        while i < self.executable.len()
            invariant
                i <= self.executable@.len(),
                executable@.len() == i + 1,
                executable@[0]@ == directory@,
                forall|k: int| 0 <= k < i ==> (#[trigger] executable@[k + 1])@ == self.executable@[k]@,
            decreases self.executable@.len() - i,
        {
            let ghost earlier = executable@;
            executable.push(self.executable[i].clone());
            proof {
                assert forall|k: int| 0 <= k < i + 1 implies (#[trigger] executable@[k + 1])@
                    == self.executable@[k]@ by {
                    if k < i {
                        assert(executable@[k + 1] == earlier[k + 1]);
                    }
                }
            }
            i = i + 1;
        }
        proof {
            let all = texts(executable@);
            let wanted = seq![directory@] + texts(self.executable@);
            assert forall|k: int| 0 <= k < all.len() implies all[k] == wanted[k] by {
                if k > 0 {
                    assert(executable@[(k - 1) + 1]@ == self.executable@[k - 1]@);
                }
            }
            assert(all =~= wanted);
        }
        ExtractionPlaces { directory, executable, binary: self.binary_name.clone() }
    }

    /// The steps of the extraction, in their order.
    pub fn steps(&self) -> (res: Vec<ExtractionStep>)
        ensures
            res@ == extraction_steps(self.format, self.make_executable),
    {
        let mut res: Vec<ExtractionStep> = Vec::new();
        res.push(ExtractionStep::Unpack(self.format));
        res.push(ExtractionStep::CopyBinary);
        res.push(ExtractionStep::RemoveDirectory);
        res.push(ExtractionStep::RemoveArchive);
        if self.make_executable {
            res.push(ExtractionStep::MakeExecutable);
        }
        proof {
            assert(res@ =~= extraction_steps(self.format, self.make_executable));
        }
        res
    }
}

/// What can be fetched can be extracted: for every machine that has a build, the way into
/// its archive is known.
pub proof fn law_fetched_can_be_extracted(platform: Platform, architecture: Architecture)
    requires
        asset_url(platform, architecture) is Some,
    ensures
        extraction_info(platform, architecture) is Some,
        archive_format(platform) is Some,
{
}

/// Whether `text` ends in `suffix`.
pub open spec fn ends_with(text: Seq<char>, suffix: Seq<char>) -> bool {
    suffix.len() <= text.len() && text.skip(text.len() - suffix.len()) == suffix
}

/// The archive is unpacked as what it is: a build whose name ends in `.zip` as a zip
/// archive, and one whose name ends in `.tar.xz` as a compressed tar archive.
pub proof fn law_format_fits_the_url(platform: Platform, architecture: Architecture)
    requires
        asset_url(platform, architecture) is Some,
    ensures
        archive_format(platform) == Some(ArchiveFormat::Zip) ==> ends_with(
            asset_url(platform, architecture)->0,
            ".zip"@,
        ),
        archive_format(platform) == Some(ArchiveFormat::TarXz) ==> ends_with(
            asset_url(platform, architecture)->0,
            ".tar.xz"@,
        ),
{
    reveal_strlit(".zip");
    reveal_strlit(".tar.xz");
    reveal_strlit("-static.tar.xz");
    reveal_strlit("https://www.gyan.dev/ffmpeg/builds/ffmpeg-release-essentials.zip");
    reveal_strlit("https://www.osxexperts.net/ffmpeg71intel.zip");
    reveal_strlit("https://www.osxexperts.net/ffmpeg71arm.zip");
    let url = asset_url(platform, architecture)->0;
    if archive_format(platform) == Some(ArchiveFormat::Zip) {
        assert(url.skip(url.len() - 4) =~= ".zip"@);
    } else {
        assert(url.skip(url.len() - 7) =~= ".tar.xz"@);
    }
}

/// Nothing is removed before the binary is in its place, and the archive is removed in the
/// end: the steps that remove come behind the copy, and no step is left out.
pub proof fn law_archive_is_kept_until_copied(
    format: ArchiveFormat,
    make_executable: bool,
    i: int,
)
    requires
        0 <= i < extraction_steps(format, make_executable).len(),
    ensures
        extraction_steps(format, make_executable)[0] == ExtractionStep::Unpack(format),
        extraction_steps(format, make_executable).contains(ExtractionStep::CopyBinary),
        extraction_steps(format, make_executable).contains(ExtractionStep::RemoveArchive),
        extraction_steps(format, make_executable)[i] == ExtractionStep::RemoveArchive
            || extraction_steps(format, make_executable)[i] == ExtractionStep::RemoveDirectory
            ==> exists|j: int|
            0 <= j < i && #[trigger] extraction_steps(format, make_executable)[j]
                == ExtractionStep::CopyBinary,
        extraction_steps(format, make_executable).contains(ExtractionStep::MakeExecutable)
            <==> make_executable,
{
    let steps = extraction_steps(format, make_executable);
    assert(steps[1] == ExtractionStep::CopyBinary);
    assert(steps[3] == ExtractionStep::RemoveArchive);
    if make_executable {
        assert(steps[4] == ExtractionStep::MakeExecutable);
    }
}

/// The binary is called `ffmpeg.exe` on Windows and `ffmpeg` elsewhere.
pub proof fn law_binary_name(platform: Platform, architecture: Architecture)
    requires
        extraction_info(platform, architecture) is Some,
    ensures
        binary_name(extraction_info(platform, architecture)->0.binary_extension) == if platform
            is Windows {
            "ffmpeg.exe"@
        } else {
            "ffmpeg"@
        },
{
    reveal_strlit("ffmpeg");
    reveal_strlit(".");
    reveal_strlit("exe");
    reveal_strlit("");
    reveal_strlit("ffmpeg.exe");
    assert("ffmpeg"@ + "."@ + "exe"@ =~= "ffmpeg.exe"@);
}

/// The directory that is unpacked into is a place of its own: unpacking and removing it
/// touches neither the archive nor the binary, and where neither name leaves the directory
/// of the archive, it does not either.
pub proof fn law_unpacking_spares_archive_and_binary(archive: Seq<char>, binary: Seq<char>)
    ensures
        is_free_name(unpack_name(archive, binary), archive, binary),
        unpack_name(archive, binary).len() > 0,
        !archive.contains('/') && !binary.contains('/') ==> !unpack_name(archive, binary).contains(
            '/',
        ),
{
    lemma_unpack_name(archive, binary);
    let name = unpack_name(archive, binary);
    reveal_strlit("-");
    if !archive.contains('/') && !binary.contains('/') {
        assert forall|i: int| 0 <= i < name.len() implies name[i] != '/' by {
            if name == stem(archive) {
                assert(archive.contains(archive[i]));
            } else if i < archive.len() {
                assert(archive.contains(archive[i]));
            } else if i > archive.len() {
                assert(binary.contains(binary[i - archive.len() - 1]));
            }
        }
    }
}

proof fn lemma_unpack_name(archive: Seq<char>, binary: Seq<char>)
    ensures
        is_free_name(unpack_name(archive, binary), archive, binary),
        unpack_name(archive, binary).len() > 0,
{
    reveal_strlit("-");
    reveal_strlit(".");
    reveal_strlit("..");
    let name = archive + "-"@ + binary;
    assert(name.len() == archive.len() + 1 + binary.len());
    assert(name[archive.len() as int] == '-');
}

/// An archive with a binary `ffmpeg`, in the directory `extracted_dir` if one is given.
fn plain_extraction(extracted_dir: Option<String>) -> (res: Extraction)
    ensures
        res@.executable_path == "ffmpeg"@,
        res.extracted_dir == extracted_dir,
        res@.binary_extension == ""@,
{
    Extraction {
        executable_path: "ffmpeg".to_string(),
        extracted_dir,
        binary_extension: "".to_string(),
    }
}

/// The archive of a Linux build.
fn linux_extraction(arch: &str) -> (res: Extraction)
    ensures
        res@ == (ExtractionView {
            executable_path: "ffmpeg"@,
            extracted_dir: Some("ffmpeg-7.0.2-"@ + arch@ + "-static"@),
            binary_extension: ""@,
        }),
{
    let mut dir = "ffmpeg-7.0.2-".to_string();
    dir.append(arch);
    dir.append("-static");
    plain_extraction(Some(dir))
}

/// For which machines there is a build: Windows, whatever its architecture; macOS on its two;
/// Linux on the four known ones; and nothing else. Windows has the same build for all.
pub proof fn law_where_builds_exist(
    platform: Platform,
    architecture: Architecture,
    other: Architecture,
)
    ensures
        asset_url(platform, architecture) is Some <==> platform is Windows || platform is Mac && (
        architecture is X64 || architecture is Aarch64) || platform is Linux
            && !(architecture is Unknown),
        platform is Windows ==> asset_url(platform, architecture) == asset_url(platform, other),
        extraction_info(platform, architecture) is Some <==> platform is Windows || platform is Mac
            || platform is Linux && !(architecture is Unknown),
        platform is Windows || platform is Mac ==> extraction_info(platform, architecture)
            == extraction_info(platform, other),
        archive_format(platform) == Some(ArchiveFormat::Zip) <==> platform is Windows
            || platform is Mac,
        archive_format(platform) == Some(ArchiveFormat::TarXz) <==> platform is Linux,
        archive_format(platform) is None <==> platform is Unknown,
{
}

/// The build for Linux stands under the name of its architecture, whatever that is: between
/// the same beginning and the same end for all.
pub proof fn law_linux_url(arch: Seq<char>)
    ensures
        ({
            let url = linux_url(arch);
            let head = "https://johnvansickle.com/ffmpeg/releases/ffmpeg-release-"@;
            let tail = "-static.tar.xz"@;
            &&& url.len() == head.len() + arch.len() + tail.len()
            &&& url.take(head.len() as int) == head
            &&& url.subrange(head.len() as int, (head.len() + arch.len()) as int) == arch
            &&& url.skip((head.len() + arch.len()) as int) == tail
        }),
{
    let url = linux_url(arch);
    let head = "https://johnvansickle.com/ffmpeg/releases/ffmpeg-release-"@;
    let tail = "-static.tar.xz"@;
    assert(url.take(head.len() as int) =~= head);
    assert(url.subrange(head.len() as int, (head.len() + arch.len()) as int) =~= arch);
    assert(url.skip((head.len() + arch.len()) as int) =~= tail);
}

/// The build and its archive belong together: on Linux the directory inside the archive is
/// named for the architecture that the URL names.
pub proof fn law_directory_fits_the_url(architecture: Architecture)
    requires
        !(architecture is Unknown),
    ensures
        exists|arch: Seq<char>|
            asset_url(Platform::Linux, architecture) == Some(#[trigger] linux_url(arch))
                && extraction_info(Platform::Linux, architecture)->0.extracted_dir == Some(
                "ffmpeg-7.0.2-"@ + arch + "-static"@,
            ),
{
    let arch = linux_arch(architecture)->0;
    assert(asset_url(Platform::Linux, architecture) == Some(linux_url(arch)));
}

/// The name of a binary is `ffmpeg`, and where there is an extension, a dot and the whole
/// extension behind it.
pub proof fn law_binary_name_has_the_extension(extension: Seq<char>)
    ensures
        extension.len() == 0 ==> binary_name(extension) == "ffmpeg"@,
        extension.len() > 0 ==> binary_name(extension).len() == 7 + extension.len() && binary_name(
            extension,
        ).take(7) == "ffmpeg."@ && binary_name(extension).skip(7) == extension,
{
    reveal_strlit("ffmpeg");
    reveal_strlit(".");
    reveal_strlit("ffmpeg.");
    if extension.len() > 0 {
        assert(binary_name(extension).take(7) =~= "ffmpeg."@);
        assert(binary_name(extension).skip(7) =~= extension);
    }
}

/// The texts of names are the names one for one.
pub proof fn law_texts(names: Seq<String>, i: int)
    requires
        0 <= i < names.len(),
    ensures
        texts(names).len() == names.len(),
        texts(names)[i] == names[i]@,
{
}

/// What a plan says: the archive is opened as what the platform has, the binary gets the name
/// with the extension, the executable is looked for in the directory of the archive if it has
/// one, and the binary is made executable exactly on macOS and Linux.
pub proof fn law_plan(plan: ExtractionPlan, info: ExtractionView, platform: Platform)
    requires
        plans(plan, info, platform),
    ensures
        plan.format is Zip <==> platform is Windows || platform is Mac,
        plan.format is TarXz <==> platform is Linux,
        !(platform is Unknown),
        plan.binary_name@ == binary_name(info.binary_extension),
        plan.make_executable <==> platform is Mac || platform is Linux,
        plan.executable@.len() == if info.extracted_dir is Some {
            2int
        } else {
            1
        },
        plan.executable@.last()@ == info.executable_path,
        info.extracted_dir is Some ==> plan.executable@[0]@ == info.extracted_dir->0,
{
    let parts = texts(plan.executable@);
    assert(parts == executable_parts(info));
    assert(parts.len() == plan.executable@.len());
    assert(parts[parts.len() - 1] == plan.executable@.last()@);
    assert(parts[0] == plan.executable@[0]@);
}

/// The steps of an extraction: unpack, copy, remove the directory, remove the archive, each
/// once and in this order, and at the end make the binary executable where that is wanted.
pub proof fn law_steps_in_order(format: ArchiveFormat, make_executable: bool)
    ensures
        ({
            let steps = extraction_steps(format, make_executable);
            &&& steps.len() == if make_executable {
                5int
            } else {
                4
            }
            &&& steps[0] == ExtractionStep::Unpack(format)
            &&& steps[1] is CopyBinary
            &&& steps[2] is RemoveDirectory
            &&& steps[3] is RemoveArchive
            &&& make_executable ==> steps[4] is MakeExecutable
        }),
{
}

/// The directory to unpack into is the name of the archive without its extension whenever that
/// is not taken: by the archive, by the binary, or by the directories that every directory
/// knows.
pub proof fn law_unpack_name_is_the_stem(archive: Seq<char>, binary: Seq<char>)
    ensures
        stem(archive) != archive && stem(archive) != binary && stem(archive) != "."@ && stem(
            archive,
        ) != ".."@ ==> unpack_name(archive, binary) == stem(archive),
{
}

} // verus!
